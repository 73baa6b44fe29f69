use vstd::prelude::*;
use crate::laws::lemma_fold_counts_positive;
use crate::parser::{check_records, records_from, records_ok};
use crate::stats::{CityInfo, Summary, fits, fold_records};
use crate::table::{CityTable, contents, infos_match};

verus! {

broadcast use vstd::seq_lib::group_to_multiset_ensures;

/// Byte-wise lexicographic order: `a` comes no later than `b`.
pub open spec fn lex_le(a: Seq<u8>, b: Seq<u8>) -> bool
    decreases a.len(),
{
    if a.len() == 0 {
        true
    } else if b.len() == 0 {
        false
    } else if a[0] != b[0] {
        a[0] < b[0]
    } else {
        lex_le(a.drop_first(), b.drop_first())
    }
}

pub proof fn lemma_lex_total(a: Seq<u8>, b: Seq<u8>)
    ensures
        lex_le(a, b) || lex_le(b, a),
    decreases a.len(),
{
    if a.len() > 0 && b.len() > 0 && a[0] == b[0] {
        lemma_lex_total(a.drop_first(), b.drop_first());
    }
}

pub proof fn lemma_lex_transitive(a: Seq<u8>, b: Seq<u8>, c: Seq<u8>)
    requires
        lex_le(a, b),
        lex_le(b, c),
    ensures
        lex_le(a, c),
    decreases a.len(),
{
    if a.len() > 0 && b.len() > 0 && c.len() > 0 && a[0] == b[0] && b[0] == c[0] {
        lemma_lex_transitive(a.drop_first(), b.drop_first(), c.drop_first());
    }
}

/// Whether `a` comes no later than `b` in byte-wise order.
pub fn name_le(a: &[u8], b: &[u8]) -> (r: bool)
    ensures
        r == lex_le(a@, b@),
{
    let mut i: usize = 0;
    assert(a@.subrange(0, a@.len() as int) =~= a@);
    assert(b@.subrange(0, b@.len() as int) =~= b@);
    while i < a.len() && i < b.len() && a[i] == b[i]
        invariant
            i <= a@.len(),
            i <= b@.len(),
            lex_le(a@, b@) == lex_le(a@.subrange(i as int, a@.len() as int), b@.subrange(i as int, b@.len() as int)),
        decreases a@.len() - i,
    {
        let ghost sa = a@.subrange(i as int, a@.len() as int);
        let ghost sb = b@.subrange(i as int, b@.len() as int);
        assert(sa.drop_first() =~= a@.subrange(i + 1, a@.len() as int));
        assert(sb.drop_first() =~= b@.subrange(i + 1, b@.len() as int));
        i = i + 1;
    }
    let ghost sa = a@.subrange(i as int, a@.len() as int);
    let ghost sb = b@.subrange(i as int, b@.len() as int);
    if i == a.len() {
        true
    } else if i == b.len() {
        false
    } else {
        assert(sa[0] == a@[i as int] && sb[0] == b@[i as int]);
        a[i] < b[i]
    }
}

pub open spec fn sorted_by_name(s: Seq<CityInfo>) -> bool {
    forall|i: int, j: int| 0 <= i < j < s.len() ==> lex_le(#[trigger] s[i].name@, #[trigger] s[j].name@)
}

/// Sorts the entries by name in byte-wise order.
pub fn sort_by_name(v: Vec<CityInfo>) -> (r: Vec<CityInfo>)
    ensures
        sorted_by_name(r@),
        r@.to_multiset() == v@.to_multiset(),
{
    let mut v = v;
    let ghost orig = v@;
    let mut out: Vec<CityInfo> = Vec::new();
    while v.len() > 0
        invariant
            sorted_by_name(out@),
            out@.to_multiset().add(v@.to_multiset()) == orig.to_multiset(),
        decreases v@.len(),
    {
        let ghost vv = v@;
        let x = v.pop().unwrap();
        proof {
            assert(vv =~= v@.push(x));
        }
        let mut p: usize = 0;
        while p < out.len() && name_le(out[p].name.as_slice(), x.name.as_slice())
            invariant
                p <= out@.len(),
                forall|j: int| 0 <= j < p ==> lex_le(#[trigger] out@[j].name@, x.name@),
            decreases out@.len() - p,
        {
            p = p + 1;
        }
        let ghost before = out@;
        proof {
            if p < out@.len() {
                lemma_lex_total(out@[p as int].name@, x.name@);
                assert forall|j: int| p <= j < out@.len() implies lex_le(x.name@, #[trigger] out@[j].name@) by {
                    if j > p {
                        lemma_lex_transitive(x.name@, out@[p as int].name@, out@[j].name@);
                    }
                }
            }
        }
        out.insert(p, x);
        proof {
            assert(out@ =~= before.insert(p as int, x));
            assert forall|i: int, j: int| 0 <= i < j < out@.len() implies lex_le(#[trigger] out@[i].name@, #[trigger] out@[j].name@) by {
                if i < p && j == p {
                } else if i < p && j > p {
                    assert(out@[j] == before[j - 1]);
                    lemma_lex_total(before[p as int].name@, x.name@);
                    lemma_lex_transitive(before[i].name@, x.name@, before[j - 1].name@);
                } else if i == p {
                    assert(out@[j] == before[j - 1]);
                } else if i > p {
                    assert(out@[i] == before[i - 1] && out@[j] == before[j - 1]);
                } else {
                }
            }
            vstd::seq_lib::to_multiset_insert(before, p as int, x);
            assert(out@.to_multiset().add(v@.to_multiset()) =~= orig.to_multiset());
        }
    }
    out
}

/// The decimal digits of `n`, most significant first.
pub open spec fn decimal(n: nat) -> Seq<u8>
    decreases n,
{
    if n < 10 {
        seq![(48 + n) as u8]
    } else {
        decimal(n / 10).push((48 + n % 10) as u8)
    }
}

/// A value in tenths written in units with one fractional digit, such as
/// `-5.6` for -56.
pub open spec fn tenths_text(v: int) -> Seq<u8> {
    let a = if v < 0 { -v } else { v };
    (if v < 0 { seq![45u8] } else { Seq::empty() }) + decimal((a / 10) as nat) + seq![46u8, (48 + a % 10) as u8]
}

/// The mean of `count` values summing to `sum`, rounded to a whole number
/// with halves rounded away from zero.
pub open spec fn mean_rounded(sum: int, count: int) -> int {
    if sum >= 0 {
        (2 * sum + count) / (2 * count)
    } else {
        -((-2 * sum + count) / (2 * count))
    }
}

/// `=min/mean/max`, each in units with one fractional digit.
pub open spec fn values_text(s: Summary) -> Seq<u8> {
    seq![61u8] + tenths_text(s.min) + seq![47u8] + tenths_text(mean_rounded(s.sum, s.count as int))
        + seq![47u8] + tenths_text(s.max)
}

/// One line of the report: `name=min/mean/max` and a line terminator.
pub open spec fn line_text(c: CityInfo) -> Seq<u8> {
    c.name@ + values_text(c.summary()) + seq![10u8]
}

pub open spec fn report_text(s: Seq<CityInfo>) -> Seq<u8>
    decreases s.len(),
{
    if s.len() == 0 {
        Seq::empty()
    } else {
        report_text(s.drop_last()) + line_text(s.last())
    }
}

fn push_decimal(out: &mut Vec<u8>, n: u128)
    ensures
        final(out)@ == old(out)@ + decimal(n as nat),
    decreases n,
{
    if n >= 10 {
        push_decimal(out, n / 10);
    }
    out.push(48u8 + (n % 10) as u8);
    assert(final(out)@ =~= old(out)@ + decimal(n as nat));
}

fn push_tenths(out: &mut Vec<u8>, v: i128)
    requires
        -0x1_0000_0000_0000_0000_0000 < v < 0x1_0000_0000_0000_0000_0000,
    ensures
        final(out)@ == old(out)@ + tenths_text(v as int),
{
    let a: i128 = if v < 0 {
        out.push(45u8);
        -v
    } else {
        v
    };
    push_decimal(out, (a / 10) as u128);
    out.push(46u8);
    out.push(48u8 + (a % 10) as u8);
    assert(final(out)@ =~= old(out)@ + tenths_text(v as int));
}

fn push_bytes(out: &mut Vec<u8>, b: &[u8])
    ensures
        final(out)@ == old(out)@ + b@,
{
    let mut i: usize = 0;
    while i < b.len()
        invariant
            i <= b@.len(),
            out@ == old(out)@ + b@.subrange(0, i as int),
        decreases b@.len() - i,
    {
        out.push(b[i]);
        i = i + 1;
        assert(out@ =~= old(out)@ + b@.subrange(0, i as int));
    }
    assert(b@.subrange(0, i as int) =~= b@);
}

impl CityInfo {
    /// `=min/mean/max` in units with one fractional digit; the mean is rounded
    /// half away from zero.
    pub fn values(&self) -> (r: Vec<u8>)
        requires
            self.count > 0,
        ensures
            r@ == values_text(self.summary()),
    {
        let mut out: Vec<u8> = Vec::new();
        out.push(61u8);
        push_tenths(&mut out, self.min as i128);
        out.push(47u8);
        let s = self.sum as i128;
        let c = self.count as i128;
        let m: i128 = if s >= 0 {
            assert((2 * s + c) / (2 * c) <= 2 * s + c) by (nonlinear_arith)
                requires s >= 0, c >= 1;
            (2 * s + c) / (2 * c)
        } else {
            assert((-2 * s + c) / (2 * c) <= -2 * s + c) by (nonlinear_arith)
                requires s < 0, c >= 1;
            -((-2 * s + c) / (2 * c))
        };
        push_tenths(&mut out, m);
        out.push(47u8);
        push_tenths(&mut out, self.max as i128);
        assert(out@ =~= values_text(self.summary()));
        out
    }
}

/// `t` lists the entries of `m` once each, in some order.
pub open spec fn entries_of(t: Seq<CityInfo>, m: Map<Seq<u8>, Summary>) -> bool {
    &&& t.len() == m.dom().len()
    &&& forall|i: int| 0 <= i < t.len() ==> m.contains_key(#[trigger] t[i].name@)
    &&& forall|i: int| 0 <= i < t.len() ==> m[#[trigger] t[i].name@] == t[i].summary()
    &&& forall|i: int, j: int| 0 <= i < j < t.len() ==> t[i].name@ != t[j].name@
    &&& forall|k: Seq<u8>| #[trigger] m.contains_key(k) ==> exists|i: int| 0 <= i < t.len() && t[i].name@ == k
}

/// `r` is the report of the entries of `m`: one line per name, in byte-wise
/// order of the names.
pub open spec fn is_report_of(r: Seq<u8>, m: Map<Seq<u8>, Summary>) -> bool {
    exists|t: Seq<CityInfo>, s: Seq<CityInfo>|
        entries_of(t, m) && s.to_multiset() == t.to_multiset() && sorted_by_name(s) && r == report_text(s)
}

impl CityTable {
    /// The table's entries, one per name, sorted by name in byte-wise order.
    pub fn sorted_entries(&self) -> (r: Vec<CityInfo>)
        ensures
            sorted_by_name(r@),
            exists|t: Seq<CityInfo>| entries_of(t, self.model()) && r@.to_multiset() == t.to_multiset(),
    {
        let infos = self.infos();
        let ghost t = infos@;
        let ghost m = self.model();
        proof {
            assert(infos_match(t, contents(*self)));
            assert forall|i: int| 0 <= i < t.len() implies m[#[trigger] t[i].name@] == t[i].summary() by {
                assert(contents(*self)[t[i].name@] == t[i].fields());
            }
            assert forall|k: Seq<u8>| #[trigger] m.contains_key(k) implies exists|i: int| 0 <= i < t.len() && t[i].name@ == k by {
                assert(contents(*self).contains_key(k));
            }
            assert(m.dom() =~= contents(*self).dom());
            assert(entries_of(t, m));
        }
        sort_by_name(infos)
    }

    /// The report of the table: its entries sorted by name, one line each.
    pub fn report(&self) -> (r: Vec<u8>)
        requires
            forall|k: Seq<u8>| #[trigger] self.model().contains_key(k) ==> self.model()[k].count > 0,
        ensures
            is_report_of(r@, self.model()),
    {
        let sorted = self.sorted_entries();
        let ghost m = self.model();
        let ghost t = choose|t: Seq<CityInfo>| entries_of(t, m) && sorted@.to_multiset() == t.to_multiset();
        proof {
            assert forall|i: int| 0 <= i < sorted@.len() implies #[trigger] sorted@[i].count > 0 by {
                let x = sorted@[i];
                assert(sorted@.to_multiset().count(x) > 0);
                assert(t.contains(x));
                let j = choose|j: int| 0 <= j < t.len() && t[j] == x;
                assert(m[t[j].name@] == t[j].summary());
            }
        }
        let r = format_report(&sorted);
        proof {
            assert(entries_of(t, m) && sorted@.to_multiset() == t.to_multiset() && sorted_by_name(sorted@) && r@ == report_text(sorted@));
        }
        r
    }
}

/// Parses every record of `buf`, aggregates them by name and renders the
/// sorted report.
pub fn summarize(buf: &[u8]) -> (r: Vec<u8>)
    requires
        records_ok(buf@, 0),
        fits(records_from(buf@, 0)),
    ensures
        is_report_of(r@, fold_records(records_from(buf@, 0))),
{
    let t = CityTable::ingest(buf);
    proof {
        lemma_fold_counts_positive(records_from(buf@, 0));
    }
    t.report()
}

/// The report of `buf`, or `None` when `buf` is not a run of well-formed
/// records or a running sum or count would leave its accumulator's range.
pub fn summarize_checked(buf: &[u8]) -> (r: Option<Vec<u8>>)
    ensures
        r is Some <==> records_ok(buf@, 0) && fits(records_from(buf@, 0)),
        r matches Some(out) ==> is_report_of(out@, fold_records(records_from(buf@, 0))),
{
    if !check_records(buf) {
        return None;
    }
    match CityTable::try_ingest(buf) {
        Some(t) => {
            proof {
                lemma_fold_counts_positive(records_from(buf@, 0));
            }
            Some(t.report())
        },
        None => None,
    }
}

/// The report lines of `s`, in the order given.
pub fn format_report(s: &Vec<CityInfo>) -> (r: Vec<u8>)
    requires
        forall|i: int| 0 <= i < s@.len() ==> #[trigger] s@[i].count > 0,
    ensures
        r@ == report_text(s@),
{
    let mut out: Vec<u8> = Vec::new();
    let mut i: usize = 0;
    while i < s.len()
        invariant
            i <= s@.len(),
            forall|j: int| 0 <= j < s@.len() ==> #[trigger] s@[j].count > 0,
            out@ == report_text(s@.subrange(0, i as int)),
        decreases s@.len() - i,
    {
        let c = &s[i];
        push_bytes(&mut out, c.name.as_slice());
        let mut vals = c.values();
        out.append(&mut vals);
        out.push(10u8);
        proof {
            assert(s@.subrange(0, i + 1).drop_last() =~= s@.subrange(0, i as int));
        }
        i = i + 1;
        assert(out@ =~= report_text(s@.subrange(0, i as int)));
    }
    assert(s@.subrange(0, i as int) =~= s@);
    out
}

} // verus!
