use vstd::prelude::*;
use crate::hashing::{finish_words, name_hash, new_hasher, pack, pow256, words_of, write_word, written, lemma_pack_bound, lemma_pow256_8, lemma_pow256_mono};

verus! {

pub open spec fn is_digit(b: u8) -> bool {
    48 <= b <= 57
}

pub open spec fn all_digits(s: Seq<u8>) -> bool {
    forall|k: int| 0 <= k < s.len() ==> #[trigger] is_digit(s[k])
}

/// The number written by a run of decimal digits.
pub open spec fn digits_value(s: Seq<u8>) -> int
    decreases s.len(),
{
    if s.len() == 0 {
        0
    } else {
        digits_value(s.drop_last()) * 10 + (s.last() - 48)
    }
}

/// The first index at or after `i` that holds `c`, or the length of `s`.
pub open spec fn find_byte(s: Seq<u8>, i: int, c: u8) -> int
    decreases s.len() - i,
{
    if i >= s.len() {
        s.len() as int
    } else if s[i] == c {
        i
    } else {
        find_byte(s, i + 1, c)
    }
}

/// End of the name of the record that starts at `pos`: its `;`.
pub open spec fn name_end(s: Seq<u8>, pos: int) -> int {
    find_byte(s, pos, 59)
}

/// Where the digits of the temperature begin, past the optional sign.
pub open spec fn digits_start(s: Seq<u8>, pos: int) -> int {
    let n = name_end(s, pos);
    if s[n + 1] == 45 { n + 2 } else { n + 1 }
}

/// The decimal point of the temperature.
pub open spec fn dot_at(s: Seq<u8>, pos: int) -> int {
    find_byte(s, digits_start(s, pos), 46)
}

/// The digits of the temperature in tenths, the point left out.
pub open spec fn tenths_digits(s: Seq<u8>, pos: int) -> Seq<u8> {
    s.subrange(digits_start(s, pos), dot_at(s, pos)).push(s[dot_at(s, pos) + 1])
}

/// A record `name;[-]digits.digit\n` starts at `pos`, and its temperature in
/// tenths fits in 64 bits.
pub open spec fn record_at(s: Seq<u8>, pos: int) -> bool {
    let n = name_end(s, pos);
    let ds = digits_start(s, pos);
    let d = dot_at(s, pos);
    &&& 0 <= pos
    &&& n + 1 < s.len()
    &&& ds < d
    &&& d + 2 < s.len()
    &&& all_digits(s.subrange(ds, d))
    &&& is_digit(s[d + 1])
    &&& s[d + 2] == 10
    &&& digits_value(tenths_digits(s, pos)) <= i64::MAX
}

pub open spec fn record_name(s: Seq<u8>, pos: int) -> Seq<u8> {
    s.subrange(pos, name_end(s, pos))
}

pub open spec fn record_temp(s: Seq<u8>, pos: int) -> int {
    let v = digits_value(tenths_digits(s, pos));
    if s[name_end(s, pos) + 1] == 45 { -v } else { v }
}

/// Where the record after the one at `pos` starts.
pub open spec fn record_next(s: Seq<u8>, pos: int) -> int {
    dot_at(s, pos) + 3
}

/// From `pos` on, `s` is a run of well-formed records.
pub open spec fn records_ok(s: Seq<u8>, pos: int) -> bool
    decreases s.len() - pos,
{
    if pos < 0 || pos > s.len() {
        false
    } else if pos == s.len() {
        true
    } else {
        record_at(s, pos) && record_next(s, pos) > pos && records_ok(s, record_next(s, pos))
    }
}

/// The (name, temperature in tenths) pairs of the records from `pos` on.
pub open spec fn records_from(s: Seq<u8>, pos: int) -> Seq<(Seq<u8>, int)>
    decreases s.len() - pos,
{
    if pos < 0 || pos >= s.len() || !record_at(s, pos) || record_next(s, pos) <= pos {
        Seq::empty()
    } else {
        seq![(record_name(s, pos), record_temp(s, pos))] + records_from(s, record_next(s, pos))
    }
}

pub proof fn lemma_find_byte(s: Seq<u8>, i: int, c: u8)
    requires
        0 <= i <= s.len(),
    ensures
        i <= find_byte(s, i, c) <= s.len(),
        find_byte(s, i, c) < s.len() ==> s[find_byte(s, i, c)] == c,
        forall|x: int| i <= x < find_byte(s, i, c) ==> s[x] != c,
        forall|x: int| i <= x <= find_byte(s, i, c) ==> find_byte(s, x, c) == find_byte(s, i, c),
    decreases s.len() - i,
{
    if i < s.len() && s[i] != c {
        lemma_find_byte(s, i + 1, c);
    }
}

pub proof fn lemma_digits_prefix(t: Seq<u8>, k: int)
    requires
        all_digits(t),
        0 <= k <= t.len(),
    ensures
        0 <= digits_value(t.subrange(0, k)) <= digits_value(t),
    decreases t.len(),
{
    if k < t.len() {
        let u = t.drop_last();
        assert(is_digit(t[t.len() - 1]));
        assert(u.subrange(0, k) =~= t.subrange(0, k));
        lemma_digits_prefix(u, k);
    } else {
        assert(t.subrange(0, k) =~= t);
        lemma_digits_nonneg(t);
    }
}

pub proof fn lemma_digits_nonneg(t: Seq<u8>)
    requires
        all_digits(t),
    ensures
        0 <= digits_value(t),
    decreases t.len(),
{
    if t.len() > 0 {
        assert(is_digit(t[t.len() - 1]));
        lemma_digits_nonneg(t.drop_last());
    }
}

/// The index just past the record at `pos` when a well-formed record starts
/// there, and `None` otherwise.
pub fn record_check(buf: &[u8], pos: usize) -> (r: Option<usize>)
    requires
        pos < buf@.len(),
    ensures
        r == (if record_at(buf@, pos as int) { Some(record_next(buf@, pos as int) as usize) } else { None::<usize> }),
        r is Some ==> record_next(buf@, pos as int) > pos,
{
    let ghost s = buf@;
    let len = buf.len();
    let mut n: usize = pos;
    while n < len && buf[n] != 59u8
        invariant
            s == buf@,
            len == s.len(),
            pos <= n <= len,
            forall|x: int| pos <= x < n ==> s[x] != 59,
        decreases len - n,
    {
        n = n + 1;
    }
    proof {
        lemma_find_byte(s, pos as int, 59);
        lemma_first_unique(s, pos as int, n as int, 59);
    }
    if n >= len - 1 {
        return None;
    }
    let ds: usize = if buf[n + 1] == 45u8 { n + 2 } else { n + 1 };
    let mut d: usize = ds;
    while d < len && buf[d] != 46u8
        invariant
            s == buf@,
            len == s.len(),
            ds <= d <= len,
            forall|x: int| ds <= x < d ==> s[x] != 46,
        decreases len - d,
    {
        d = d + 1;
    }
    proof {
        lemma_find_byte(s, ds as int, 46);
        lemma_first_unique(s, ds as int, d as int, 46);
    }
    if d <= ds || d >= len || len - d < 3 {
        return None;
    }
    let ghost t = tenths_digits(s, pos as int);
    let mut v: i128 = 0;
    let mut j: usize = ds;
    while j < d
        invariant
            s == buf@,
            len == s.len(),
            ds <= j <= d,
            d + 2 < len,
            d == dot_at(s, pos as int),
            ds == digits_start(s, pos as int),
            t == tenths_digits(s, pos as int),
            all_digits(s.subrange(ds as int, j as int)),
            v == digits_value(s.subrange(ds as int, j as int)),
            0 <= v <= i64::MAX,
        decreases d - j,
    {
        let c = buf[j];
        if c < 48u8 || c > 57u8 {
            proof {
                assert(s.subrange(ds as int, d as int)[j - ds] == c);
                assert(!is_digit(s.subrange(ds as int, d as int)[j - ds]));
            }
            return None;
        }
        proof {
            assert(s.subrange(ds as int, j + 1).drop_last() =~= s.subrange(ds as int, j as int));
        }
        v = v * 10 + (c - 48u8) as i128;
        j = j + 1;
        proof {
            assert forall|x: int| 0 <= x < j - ds implies #[trigger] is_digit(s.subrange(ds as int, j as int)[x]) by {
                if x < j - 1 - ds {
                    assert(s.subrange(ds as int, j as int)[x] == s.subrange(ds as int, j - 1)[x]);
                }
            }
        }
        if v > i64::MAX as i128 {
            proof {
                if all_digits(t) {
                    assert(t.subrange(0, j - ds) =~= s.subrange(ds as int, j as int));
                    lemma_digits_prefix(t, j - ds);
                }
                lemma_digits_of_push(s.subrange(ds as int, d as int), s[d + 1]);
            }
            return None;
        }
    }
    let f = buf[d + 1];
    if f < 48u8 || f > 57u8 || buf[d + 2] != 10u8 {
        return None;
    }
    proof {
        assert(t.drop_last() =~= s.subrange(ds as int, d as int));
    }
    if v * 10 + (f - 48u8) as i128 > i64::MAX as i128 {
        return None;
    }
    Some(d + 3)
}

proof fn lemma_digits_of_push(u: Seq<u8>, b: u8)
    ensures
        all_digits(u.push(b)) == (all_digits(u) && is_digit(b)),
{
    assert(u.push(b)[u.len() as int] == b);
    if all_digits(u.push(b)) {
        assert forall|x: int| 0 <= x < u.len() implies #[trigger] is_digit(u[x]) by {
            assert(u.push(b)[x] == u[x]);
        }
    }
    if all_digits(u) && is_digit(b) {
        assert forall|x: int| 0 <= x < u.push(b).len() implies #[trigger] is_digit(u.push(b)[x]) by {
            if x < u.len() {
                assert(u.push(b)[x] == u[x]);
            }
        }
    }
}

proof fn lemma_first_unique(s: Seq<u8>, i: int, n: int, c: u8)
    requires
        0 <= i <= n <= s.len(),
        forall|x: int| i <= x < n ==> s[x] != c,
        n == s.len() || s[n] == c,
    ensures
        n == find_byte(s, i, c),
{
    lemma_find_byte(s, i, c);
}

/// Whether `buf` is, from its start, a run of well-formed records.
pub fn check_records(buf: &[u8]) -> (r: bool)
    ensures
        r == records_ok(buf@, 0),
{
    let mut pos: usize = 0;
    while pos < buf.len()
        invariant
            pos <= buf@.len(),
            records_ok(buf@, 0) == records_ok(buf@, pos as int),
        decreases buf@.len() - pos,
    {
        match record_check(buf, pos) {
            Some(nx) => {
                pos = nx;
            },
            None => {
                return false;
            },
        }
    }
    true
}

/// One parsed record: a view of its name in the input, the hash of the name
/// and the temperature in tenths of a degree.
pub struct Entry<'a> {
    pub name: &'a [u8],
    pub hash: u64,
    pub temp: i64,
}

impl<'a> Entry<'a> {
    /// Parses the record at `*pos` and moves `*pos` past its line terminator.
    /// The name is scanned one word of eight bytes at a time, each word being
    /// hashed as soon as it is read.
    pub fn read(buf: &'a [u8], pos: &mut usize) -> (e: Entry<'a>)
        requires
            *old(pos) < buf@.len(),
            records_ok(buf@, *old(pos) as int),
        ensures
            e.name@ == record_name(buf@, *old(pos) as int),
            e.hash == name_hash(e.name@),
            e.temp == record_temp(buf@, *old(pos) as int),
            *final(pos) == record_next(buf@, *old(pos) as int),
            *old(pos) < *final(pos) <= buf@.len(),
            records_ok(buf@, *final(pos) as int),
            records_from(buf@, *old(pos) as int) == seq![(e.name@, e.temp as int)]
                + records_from(buf@, *final(pos) as int),
    {
        let ghost s = buf@;
        let len = buf.len();
        let start = *pos;
        let ghost n = name_end(s, start as int);
        proof {
            lemma_find_byte(s, start as int, 59);
        }
        let mut i: usize = start;
        let mut hasher = new_hasher();
        loop
            invariant
                s == buf@,
                start <= i <= n,
                n + 1 < s.len(),
                s.len() == len,
                n == name_end(s, start as int),
                s[n] == 59,
                forall|x: int| start <= x < n ==> s[x] != 59,
                written(hasher) + words_of(s.subrange(i as int, n)) == words_of(
                    s.subrange(start as int, n),
                ),
            ensures
                i == n,
                written(hasher) == words_of(s.subrange(start as int, n)),
            decreases n - i,
        {
            let mut val: u64 = 0;
            let mut k: usize = 0;
            let mut weight: u64 = 1;
            while k < 8 && buf[i + k] != 59u8
                invariant
                    s == buf@,
                    k <= 8,
                    i + k <= n,
                    n + 1 < s.len(),
                    s.len() == len,
                    s[n] == 59,
                    forall|x: int| start <= x < n ==> s[x] != 59,
                    start <= i,
                    val as nat == pack(s.subrange(i as int, i + k)),
                    k < 8 ==> weight as nat == pow256(k as nat),
                decreases 8 - k,
            {
                let c = buf[i + k];
                let ghost p = s.subrange(i as int, i + k + 1);
                proof {
                    assert(p.drop_last() =~= s.subrange(i as int, i + k));
                    lemma_pack_bound(p);
                    lemma_pow256_mono((k + 1) as nat, 8);
                    lemma_pow256_8();
                }
                val = val + (c as u64) * weight;
                k = k + 1;
                if k < 8 {
                    proof {
                        lemma_pow256_mono(k as nat, 7);
                        lemma_pow256_8();
                    }
                    weight = weight * 256;
                }
            }
            let ghost rest = s.subrange(i as int, n);
            if k == 8 {
                proof {
                    assert(rest.subrange(0, 8) =~= s.subrange(i as int, i + 8));
                    if rest.len() > 8 {
                        assert(rest.subrange(8, rest.len() as int) =~= s.subrange(i + 8, n));
                    } else {
                        assert(s.subrange(i + 8, n).len() == 0);
                        assert(rest =~= s.subrange(i as int, i + 8));
                    }
                }
                write_word(&mut hasher, val);
                assert(written(hasher) + words_of(s.subrange(i + 8, n)) =~= words_of(
                    s.subrange(start as int, n),
                ));
                i = i + 8;
            } else {
                assert(i + k == n);
                assert(rest =~= s.subrange(i as int, i + k));
                if k > 0 {
                    write_word(&mut hasher, val);
                    assert(written(hasher) + words_of(s.subrange(i + k, n)) =~= words_of(s.subrange(start as int, n)));
                } else {
                    assert(written(hasher) + words_of(s.subrange(i + k, n)) =~= words_of(s.subrange(start as int, n)));
                }
                i = i + k;
                break;
            }
        }
        let hash = finish_words(&hasher);
        let name = vstd::slice::slice_subrange(buf, start, i);
        assert(name@ =~= s.subrange(start as int, n));
        let mut j: usize = i + 1;
        let neg = buf[j] == 45u8;
        if neg {
            j = j + 1;
        }
        let ds = j;
        let ghost d = dot_at(s, start as int);
        let ghost t = tenths_digits(s, start as int);
        proof {
            lemma_find_byte(s, ds as int, 46);
            assert(all_digits(s.subrange(ds as int, d)));
        }
        let mut v: i64 = 0;
        while buf[j] != 46u8
            invariant
                s == buf@,
                ds <= j <= d,
                d + 2 < s.len(),
                s.len() == len,
                s[d] == 46,
                t == s.subrange(ds as int, d).push(s[d + 1]),
                all_digits(s.subrange(ds as int, d)),
                is_digit(s[d + 1]),
                digits_value(t) <= i64::MAX,
                v == digits_value(s.subrange(ds as int, j as int)),
            decreases d - j,
        {
            proof {
                assert(s.subrange(ds as int, d)[j - ds] == s[j as int]);
                assert(is_digit(s[j as int]));
                assert(all_digits(t)) by {
                    assert forall|x: int| 0 <= x < t.len() implies #[trigger] is_digit(t[x]) by {
                        if x < t.len() - 1 {
                            assert(t[x] == s.subrange(ds as int, d)[x]);
                        }
                    }
                }
                assert(t.subrange(0, j + 1 - ds) =~= s.subrange(ds as int, j + 1));
                lemma_digits_prefix(t, j + 1 - ds);
                assert(s.subrange(ds as int, j + 1).drop_last() =~= s.subrange(ds as int, j as int));
            }
            v = v * 10 + (buf[j] - 48u8) as i64;
            j = j + 1;
        }
        proof {
            assert(t.drop_last() =~= s.subrange(ds as int, d));
            lemma_digits_nonneg(s.subrange(ds as int, d));
        }
        v = v * 10 + (buf[j + 1] - 48u8) as i64;
        let temp = if neg { -v } else { v };
        *pos = j + 3;
        proof {
            let nx = record_next(s, start as int);
            assert(records_ok(s, nx));
            assert(records_from(s, start as int) == seq![(name@, temp as int)] + records_from(s, nx));
        }
        Entry { name, hash, temp }
    }

    pub fn name(&self) -> (r: &'a [u8])
        ensures
            r@ == self.name@,
    {
        self.name
    }

    pub fn hash(&self) -> (r: u64)
        ensures
            r == self.hash,
    {
        self.hash
    }

    pub fn temp10(&self) -> (r: i64)
        ensures
            r == self.temp,
    {
        self.temp
    }
}

} // verus!
