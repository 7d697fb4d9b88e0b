use vstd::prelude::*;
use crate::filename::{
    file_name_of, month_digits, padded_day, time_fields, timestamp_of, words, DateError,
};

verus! {

pub open spec fn is_digit(c: char) -> bool {
    '0' <= c && c <= '9'
}

pub open spec fn all_digits(s: Seq<char>) -> bool {
    forall|i: int| 0 <= i < s.len() ==> is_digit(#[trigger] s[i])
}

pub open spec fn pow10(n: nat) -> nat
    decreases n,
{
    if n == 0 {
        1
    } else {
        10 * pow10((n - 1) as nat)
    }
}

/// The number that a string of decimal digits writes.
pub open spec fn digits_value(s: Seq<char>) -> nat
    decreases s.len(),
{
    if s.len() == 0 {
        0
    } else {
        ((s[0] as nat) - ('0' as nat)) as nat * pow10((s.len() - 1) as nat) + digits_value(s.drop_first())
    }
}

/// Whether `a` comes before `b` in dictionary order of characters.
pub open spec fn lex_lt(a: Seq<char>, b: Seq<char>) -> bool {
    (exists|k: int|
        0 <= k < a.len() && k < b.len() && (a[k] as u32) < (b[k] as u32)
            && forall|j: int| 0 <= j < k ==> #[trigger] a[j] == b[j])
    || (a.len() < b.len() && a == b.take(a.len() as int))
}

/// Whether one list of numbers comes before another, the first number
/// deciding first.
pub open spec fn tuple_lt(a: Seq<nat>, b: Seq<nat>) -> bool
    decreases a.len(),
{
    a.len() > 0 && b.len() > 0 && (a[0] < b[0] || (a[0] == b[0] && tuple_lt(a.drop_first(), b.drop_first())))
}

/// The fields of a timestamp run together.
pub open spec fn joined(fs: Seq<Seq<char>>) -> Seq<char>
    decreases fs.len(),
{
    if fs.len() == 0 {
        Seq::empty()
    } else {
        fs[0] + joined(fs.drop_first())
    }
}

/// The year, month, day, hour, minute and second texts of a date that
/// `timestamp_of` accepts.
pub open spec fn date_fields(date: Seq<char>) -> Seq<Seq<char>> {
    let w = words(date);
    let (m1, m2) = month_digits(w[2])->Some_0;
    let (h, mi, sec) = time_fields(w[4])->Some_0;
    seq![w[3], seq![m1, m2], padded_day(w[1]), h, mi, sec]
}

/// A date whose timestamp is accepted and written with a four-digit year,
/// a one- or two-digit day and two-digit hours, minutes and seconds.
pub open spec fn well_formed_date(date: Seq<char>) -> bool {
    timestamp_of(date) is Ok && {
        let w = words(date);
        let f = date_fields(date);
        all_digits(w[1]) && 1 <= w[1].len() <= 2
            && all_digits(f[0]) && f[0].len() == 4
            && all_digits(f[3]) && f[3].len() == 2
            && all_digits(f[4]) && f[4].len() == 2
            && all_digits(f[5]) && f[5].len() == 2
    }
}

/// The calendar fields of a date as numbers, year first.
pub open spec fn date_numbers(date: Seq<char>) -> Seq<nat> {
    date_fields(date).map_values(|f: Seq<char>| digits_value(f))
}

proof fn lemma_value_bound(s: Seq<char>)
    requires
        all_digits(s),
    ensures
        digits_value(s) < pow10(s.len()),
    decreases s.len(),
{
    if s.len() > 0 {
        let t = s.drop_first();
        assert(all_digits(t)) by {
            assert forall|i: int| 0 <= i < t.len() implies is_digit(#[trigger] t[i]) by {
                assert(t[i] == s[i + 1]);
                assert(is_digit(s[i + 1]));
            }
        }
        lemma_value_bound(t);
        assert(is_digit(s[0]));
        let d = ((s[0] as nat) - ('0' as nat)) as nat;
        let p = pow10((s.len() - 1) as nat);
        assert(d <= 9);
        assert(d * p + digits_value(t) < 10 * p) by (nonlinear_arith)
            requires
                d <= 9,
                digits_value(t) < p,
        ;
    }
}

proof fn lemma_digits_order(a: Seq<char>, b: Seq<char>)
    requires
        all_digits(a),
        all_digits(b),
        a.len() == b.len(),
    ensures
        digits_value(a) < digits_value(b) ==> lex_lt(a, b),
        digits_value(a) == digits_value(b) ==> a == b,
    decreases a.len(),
{
    if a.len() == 0 {
        assert(a =~= b);
    } else {
        let ta = a.drop_first();
        let tb = b.drop_first();
        assert(all_digits(ta)) by {
            assert forall|i: int| 0 <= i < ta.len() implies is_digit(#[trigger] ta[i]) by {
                assert(is_digit(a[i + 1]));
            }
        }
        assert(all_digits(tb)) by {
            assert forall|i: int| 0 <= i < tb.len() implies is_digit(#[trigger] tb[i]) by {
                assert(is_digit(b[i + 1]));
            }
        }
        lemma_value_bound(ta);
        lemma_value_bound(tb);
        lemma_digits_order(ta, tb);
        assert(is_digit(a[0]));
        assert(is_digit(b[0]));
        let da = ((a[0] as nat) - ('0' as nat)) as nat;
        let db = ((b[0] as nat) - ('0' as nat)) as nat;
        let p = pow10((a.len() - 1) as nat);
        let ra = digits_value(ta);
        let rb = digits_value(tb);
        if da < db {
            assert(lex_lt(a, b)) by {
                assert((a[0] as u32) < (b[0] as u32));
                assert(forall|j: int| 0 <= j < 0 ==> #[trigger] a[j] == b[j]);
            }
            assert(da * p + ra < db * p + rb) by (nonlinear_arith)
                requires
                    da < db,
                    ra < p,
            ;
        } else if da > db {
            assert(da * p + ra > db * p + rb) by (nonlinear_arith)
                requires
                    da > db,
                    rb < p,
            ;
        } else {
            assert(a[0] == b[0]);
            if ra < rb {
                let k = choose|k: int|
                    0 <= k < ta.len() && k < tb.len() && (ta[k] as u32) < (tb[k] as u32)
                        && forall|j: int| 0 <= j < k ==> #[trigger] ta[j] == tb[j];
                assert forall|j: int| 0 <= j < k + 1 implies #[trigger] a[j] == b[j] by {
                    if j > 0 {
                        assert(a[j] == ta[j - 1]);
                        assert(b[j] == tb[j - 1]);
                    }
                }
                assert((a[k + 1] as u32) < (b[k + 1] as u32));
            }
            if ra == rb {
                assert(a =~= seq![a[0]] + ta);
                assert(b =~= seq![b[0]] + tb);
            }
        }
    }
}

proof fn lemma_lex_lt_extend(a: Seq<char>, b: Seq<char>, x: Seq<char>, y: Seq<char>)
    requires
        lex_lt(a, b),
        a.len() == b.len(),
    ensures
        lex_lt(a + x, b + y),
{
    let k = choose|k: int|
        0 <= k < a.len() && k < b.len() && (a[k] as u32) < (b[k] as u32)
            && forall|j: int| 0 <= j < k ==> #[trigger] a[j] == b[j];
    assert forall|j: int| 0 <= j < k implies #[trigger] (a + x)[j] == (b + y)[j] by {
        assert(a[j] == b[j]);
    }
    assert(((a + x)[k] as u32) < ((b + y)[k] as u32));
}

proof fn lemma_lex_lt_prefix(a: Seq<char>, x: Seq<char>, y: Seq<char>)
    requires
        lex_lt(x, y),
    ensures
        lex_lt(a + x, a + y),
{
    if exists|k: int|
        0 <= k < x.len() && k < y.len() && (x[k] as u32) < (y[k] as u32)
            && forall|j: int| 0 <= j < k ==> #[trigger] x[j] == y[j] {
        let k = choose|k: int|
            0 <= k < x.len() && k < y.len() && (x[k] as u32) < (y[k] as u32)
                && forall|j: int| 0 <= j < k ==> #[trigger] x[j] == y[j];
        let m = a.len() + k;
        assert forall|j: int| 0 <= j < m implies #[trigger] (a + x)[j] == (a + y)[j] by {
            if j >= a.len() {
                assert(x[j - a.len()] == y[j - a.len()]);
            }
        }
        assert(((a + x)[m] as u32) < ((a + y)[m] as u32));
    } else {
        assert(a + x =~= (a + y).take((a + x).len() as int));
    }
}

proof fn lemma_joined_order(f: Seq<Seq<char>>, g: Seq<Seq<char>>)
    requires
        f.len() == g.len(),
        forall|i: int| 0 <= i < f.len() ==> all_digits(#[trigger] f[i]) && all_digits(g[i]) && f[i].len() == g[i].len(),
        tuple_lt(f.map_values(|s: Seq<char>| digits_value(s)), g.map_values(|s: Seq<char>| digits_value(s))),
    ensures
        lex_lt(joined(f), joined(g)),
    decreases f.len(),
{
    let vf = f.map_values(|s: Seq<char>| digits_value(s));
    let vg = g.map_values(|s: Seq<char>| digits_value(s));
    assert(all_digits(f[0]) && all_digits(g[0]) && f[0].len() == g[0].len());
    lemma_digits_order(f[0], g[0]);
    assert(vf[0] == digits_value(f[0]));
    assert(vg[0] == digits_value(g[0]));
    if vf[0] < vg[0] {
        lemma_lex_lt_extend(f[0], g[0], joined(f.drop_first()), joined(g.drop_first()));
    } else {
        let tf = f.drop_first();
        let tg = g.drop_first();
        assert(vf.drop_first() =~= tf.map_values(|s: Seq<char>| digits_value(s)));
        assert(vg.drop_first() =~= tg.map_values(|s: Seq<char>| digits_value(s)));
        assert forall|i: int| 0 <= i < tf.len() implies all_digits(#[trigger] tf[i]) && all_digits(tg[i]) && tf[i].len() == tg[i].len() by {
            assert(all_digits(f[i + 1]) && all_digits(g[i + 1]) && f[i + 1].len() == g[i + 1].len());
        }
        lemma_joined_order(tf, tg);
        lemma_lex_lt_prefix(f[0], joined(tf), joined(tg));
    }
}

proof fn lemma_month_digits(m: Seq<char>)
    requires
        month_digits(m) is Some,
    ensures
        all_digits(seq![month_digits(m)->Some_0.0, month_digits(m)->Some_0.1]),
{
    let s = seq![month_digits(m)->Some_0.0, month_digits(m)->Some_0.1];
    assert forall|i: int| 0 <= i < s.len() implies is_digit(#[trigger] s[i]) by {}
}

proof fn lemma_joined_six(f: Seq<Seq<char>>)
    requires
        f.len() == 6,
    ensures
        joined(f) == f[0] + f[1] + f[2] + f[3] + f[4] + f[5],
{
    let f1 = f.drop_first();
    let f2 = f1.drop_first();
    let f3 = f2.drop_first();
    let f4 = f3.drop_first();
    let f5 = f4.drop_first();
    let f6 = f5.drop_first();
    assert(joined(f6) == Seq::<char>::empty());
    assert(joined(f5) == f[5] + joined(f6));
    assert(joined(f4) == f[4] + joined(f5));
    assert(joined(f3) == f[3] + joined(f4));
    assert(joined(f2) == f[2] + joined(f3));
    assert(joined(f1) == f[1] + joined(f2));
    assert(joined(f) == f[0] + joined(f1));
    assert(joined(f) =~= f[0] + f[1] + f[2] + f[3] + f[4] + f[5]);
}

proof fn lemma_timestamp_joined(date: Seq<char>)
    requires
        well_formed_date(date),
    ensures
        timestamp_of(date) == Ok::<Seq<char>, DateError>(joined(date_fields(date))),
        forall|i: int| 0 <= i < 6 ==> all_digits(#[trigger] date_fields(date)[i]),
        date_fields(date).len() == 6,
        date_fields(date)[0].len() == 4,
        forall|i: int| 1 <= i < 6 ==> (#[trigger] date_fields(date)[i]).len() == 2,
{
    let f = date_fields(date);
    let w = words(date);
    lemma_month_digits(w[2]);
    let d = padded_day(w[1]);
    assert(all_digits(d)) by {
        assert forall|i: int| 0 <= i < d.len() implies is_digit(#[trigger] d[i]) by {
            if w[1].len() == 1 {
                if i > 0 {
                    assert(d[i] == w[1][i - 1]);
                }
            }
        }
    }
    lemma_joined_six(f);
}

/// Of two well-formed dates, the one with the earlier calendar fields gives
/// the smaller file name, whatever the senders.
pub proof fn lemma_earlier_sorts_first(d1: Seq<char>, d2: Seq<char>, s1: Seq<char>, s2: Seq<char>)
    requires
        well_formed_date(d1),
        well_formed_date(d2),
        tuple_lt(date_numbers(d1), date_numbers(d2)),
    ensures
        timestamp_of(d1) is Ok,
        timestamp_of(d2) is Ok,
        lex_lt(
            file_name_of(timestamp_of(d1)->Ok_0, s1),
            file_name_of(timestamp_of(d2)->Ok_0, s2),
        ),
{
    lemma_timestamp_joined(d1);
    lemma_timestamp_joined(d2);
    let f = date_fields(d1);
    let g = date_fields(d2);
    lemma_joined_order(f, g);
    let t1 = joined(f);
    let t2 = joined(g);
    lemma_joined_six(f);
    lemma_joined_six(g);
    lemma_lex_lt_extend(t1, t2, seq!['_'] + s1 + seq!['.', 'e', 'm', 'l'], seq!['_'] + s2 + seq!['.', 'e', 'm', 'l']);
    assert(file_name_of(t1, s1) =~= t1 + (seq!['_'] + s1 + seq!['.', 'e', 'm', 'l']));
    assert(file_name_of(t2, s2) =~= t2 + (seq!['_'] + s2 + seq!['.', 'e', 'm', 'l']));
}

} // verus!
