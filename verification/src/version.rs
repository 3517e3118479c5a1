use vstd::prelude::*;

use crate::errors::AggError;

verus! {

/// A software version: an ordered (major, minor, patch) triple.
///
/// Versions are compared lexicographically on the triple; the order is a
/// strict total order (see `lemma_version_order_strict_total`). A value is
/// immutable once constructed.
#[derive(Clone, Copy, PartialEq, Eq, Structural, Debug)]
pub struct VersionId {
    pub major: u64,
    pub minor: u64,
    pub patch: u64,
}

/// Strict lexicographic order on (major, minor, patch).
pub open spec fn version_lt(a: VersionId, b: VersionId) -> bool {
    a.major < b.major || (a.major == b.major && (a.minor < b.minor || (a.minor == b.minor
        && a.patch < b.patch)))
}

/// Non-strict lexicographic order on (major, minor, patch).
pub open spec fn version_le(a: VersionId, b: VersionId) -> bool {
    version_lt(a, b) || a == b
}

/// Whether `v` lies in the configured analysis window `[earliest, latest]`.
pub open spec fn version_in_window(v: VersionId, earliest: VersionId, latest: VersionId) -> bool {
    version_le(earliest, v) && version_le(v, latest)
}

/// The deterministic successor used to generate a dense reference axis for
/// chart ticks: at a configured "last patch of this minor" sentinel the minor
/// is incremented and the patch reset, otherwise the patch is incremented.
/// `None` when the increment would not fit the component's type.
pub open spec fn succ_spec(v: VersionId, sentinels: Seq<VersionId>) -> Option<VersionId> {
    if sentinels.contains(v) {
        if v.minor == u64::MAX {
            None
        } else {
            Some(VersionId { major: v.major, minor: (v.minor + 1) as u64, patch: 0 })
        }
    } else {
        if v.patch == u64::MAX {
            None
        } else {
            Some(VersionId { major: v.major, minor: v.minor, patch: (v.patch + 1) as u64 })
        }
    }
}

/// The order on versions is a strict total order: irreflexive, asymmetric,
/// transitive, and total (distinct versions compare one way or the other,
/// never both).
pub proof fn lemma_version_order_strict_total(a: VersionId, b: VersionId, c: VersionId)
    ensures
        !version_lt(a, a),
        version_lt(a, b) ==> !version_lt(b, a),
        version_lt(a, b) && version_lt(b, c) ==> version_lt(a, c),
        a != b ==> (version_lt(a, b) <==> !version_lt(b, a)),
{
}

/// A successor is strictly greater than the version it follows.
pub proof fn lemma_succ_increases(v: VersionId, sentinels: Seq<VersionId>)
    ensures
        succ_spec(v, sentinels) matches Some(n) ==> version_lt(v, n),
{
}

impl VersionId {
    /// Constructs a version from its three components.
    pub fn new(major: u64, minor: u64, patch: u64) -> (r: VersionId)
        ensures
            r == (VersionId { major, minor, patch }),
    {
        VersionId { major, minor, patch }
    }

    /// Strict comparison in the total version order.
    pub fn lt(&self, other: &VersionId) -> (r: bool)
        ensures
            r == version_lt(*self, *other),
    {
        if self.major != other.major {
            self.major < other.major
        } else if self.minor != other.minor {
            self.minor < other.minor
        } else {
            self.patch < other.patch
        }
    }

    /// Non-strict comparison in the total version order.
    pub fn le(&self, other: &VersionId) -> (r: bool)
        ensures
            r == version_le(*self, *other),
    {
        !other.lt(self)
    }

    /// The reference-axis successor; see `succ_spec`.
    pub fn successor(&self, sentinels: &Vec<VersionId>) -> (r: Option<VersionId>)
        ensures
            r == succ_spec(*self, sentinels@),
    {
        let mut i: usize = 0;
        let mut at_sentinel = false;
        while i < sentinels.len()
            invariant
                0 <= i <= sentinels@.len(),
                at_sentinel == exists|k: int| 0 <= k < i && sentinels@[k] == *self,
            decreases sentinels@.len() - i,
        {
            if sentinels[i] == *self {
                at_sentinel = true;
            }
            i += 1;
        }
        assert(at_sentinel == sentinels@.contains(*self));
        if at_sentinel {
            if self.minor == u64::MAX {
                None
            } else {
                Some(VersionId { major: self.major, minor: self.minor + 1, patch: 0 })
            }
        } else {
            if self.patch == u64::MAX {
                None
            } else {
                Some(VersionId { major: self.major, minor: self.minor, patch: self.patch + 1 })
            }
        }
    }
}

/// An injective encoding of a version into a single integer, used only as a
/// termination measure: lexicographically greater versions encode greater.
spec fn encode(v: VersionId) -> int {
    v.major * 0x100000000000000000000000000000000 + v.minor * 0x10000000000000000 + v.patch
}

proof fn lemma_encode_monotone(a: VersionId, b: VersionId)
    requires
        version_lt(a, b),
    ensures
        encode(a) < encode(b),
{
}

/// The dense reference axis for chart ticks: the chain of successors from
/// `start`, up to the last version not beyond `end` (the chain also stops if
/// an increment would not fit the component's type). `start` itself is always
/// the first tick, as in the window configuration's intent.
pub fn version_axis(start: VersionId, end: VersionId, sentinels: &Vec<VersionId>) -> (r: Vec<
    VersionId,
>)
    ensures
        r@.len() >= 1,
        r@[0] == start,
        forall|i: int|
            0 < i < r@.len() ==> succ_spec(#[trigger] r@[i - 1], sentinels@) == Some(r@[i])
                && version_le(r@[i], end),
        ({
            let last = r@[r@.len() - 1];
            match succ_spec(last, sentinels@) {
                Some(n) => !version_le(n, end),
                None => true,
            }
        }),
{
    let mut out: Vec<VersionId> = Vec::new();
    out.push(start);
    let mut cur = start;
    match cur.successor(sentinels) {
        None => {
            return out;
        },
        Some(n) => {
            if !n.le(&end) {
                return out;
            }
            out.push(n);
            cur = n;
        },
    }
    loop
        invariant
            version_le(cur, end),
            out@.len() >= 2,
            out@[0] == start,
            out@[out@.len() - 1] == cur,
            forall|i: int|
                0 < i < out@.len() ==> succ_spec(#[trigger] out@[i - 1], sentinels@) == Some(
                    out@[i],
                ) && version_le(out@[i], end),
        decreases encode(end) - encode(cur),
    {
        match cur.successor(sentinels) {
            None => {
                return out;
            },
            Some(n) => {
                if !n.le(&end) {
                    return out;
                }
                out.push(n);
                proof {
                    lemma_succ_increases(cur, sentinels@);
                    lemma_encode_monotone(cur, n);
                }
                cur = n;
            },
        }
    }
}

/// Whether `c` is an ASCII decimal digit.
pub open spec fn is_digit(c: u8) -> bool {
    48 <= c <= 57
}

/// The numeric value of an ASCII decimal digit.
pub open spec fn digit_val(c: u8) -> int {
    c - 48
}

/// Whether every byte of `s` is an ASCII decimal digit.
pub open spec fn all_digits(s: Seq<u8>) -> bool {
    forall|i: int| 0 <= i < s.len() ==> is_digit(#[trigger] s[i])
}

/// The number denoted by a digit string, most significant digit first.
pub open spec fn num_val(s: Seq<u8>) -> int
    decreases s.len(),
{
    if s.len() == 0 {
        0
    } else {
        num_val(s.drop_last()) * 10 + digit_val(s.last())
    }
}

/// The canonical decimal digit string of `n`: no leading zeros.
pub open spec fn num_digits(n: nat) -> Seq<u8>
    decreases n,
{
    if n <= 9 {
        seq![(48 + n) as u8]
    } else {
        num_digits(n / 10).push((48 + n % 10) as u8)
    }
}

/// A digit string that denotes a version component: non-empty, all digits,
/// value within the component's type.
pub open spec fn is_component(s: Seq<u8>) -> bool {
    s.len() > 0 && all_digits(s) && num_val(s) <= u64::MAX
}

/// A digit string in canonical form: non-empty and without leading zeros.
pub open spec fn canonical_digits(s: Seq<u8>) -> bool {
    s.len() > 0 && all_digits(s) && (s.len() > 1 ==> s[0] != 48)
}

/// Whether positions `n` and `m` split `s` into the three dot-separated
/// components of a version string.
pub open spec fn valid_split(s: Seq<u8>, n: int, m: int) -> bool {
    0 < n < m < s.len() && s[n] == 46 && s[m] == 46 && is_component(s.subrange(0, n))
        && is_component(s.subrange(n + 1, m)) && is_component(s.subrange(m + 1, s.len() as int))
}

/// The version denoted by `s` when split at dot positions `n` and `m`.
pub open spec fn split_version(s: Seq<u8>, n: int, m: int) -> VersionId {
    VersionId {
        major: num_val(s.subrange(0, n)) as u64,
        minor: num_val(s.subrange(n + 1, m)) as u64,
        patch: num_val(s.subrange(m + 1, s.len() as int)) as u64,
    }
}

/// The canonical "major.minor.patch" byte string of a version.
pub open spec fn spec_format(v: VersionId) -> Seq<u8> {
    num_digits(v.major as nat) + seq![46u8] + num_digits(v.minor as nat) + seq![46u8] + num_digits(
        v.patch as nat,
    )
}

/// A digit string denotes a non-negative number.
proof fn lemma_num_val_nonneg(s: Seq<u8>)
    requires
        all_digits(s),
    ensures
        num_val(s) >= 0,
    decreases s.len(),
{
    if s.len() > 0 {
        lemma_num_val_nonneg(s.drop_last());
    }
}

/// A digit string with a non-zero leading digit denotes a positive number.
proof fn lemma_num_val_pos(s: Seq<u8>)
    requires
        all_digits(s),
        s.len() >= 1,
        s[0] != 48,
    ensures
        num_val(s) >= 1,
    decreases s.len(),
{
    if s.len() == 1 {
        assert(s.drop_last() =~= Seq::<u8>::empty());
        assert(num_val(Seq::<u8>::empty()) == 0);
        assert(is_digit(s[0]));
        assert(num_val(s) == digit_val(s[0]));
    } else {
        let t = s.drop_last();
        assert(t[0] == s[0]);
        lemma_num_val_pos(t);
        assert(is_digit(s.last()));
        assert(num_val(s) == num_val(t) * 10 + digit_val(s.last()));
    }
}

/// Extending a digit string cannot decrease its value.
proof fn lemma_num_val_prefix(s: Seq<u8>, j: int)
    requires
        all_digits(s),
        0 <= j <= s.len(),
    ensures
        num_val(s.subrange(0, j)) <= num_val(s),
    decreases s.len(),
{
    if j == s.len() {
        assert(s.subrange(0, j) =~= s);
    } else {
        let t = s.drop_last();
        assert(s.subrange(0, j) =~= t.subrange(0, j));
        lemma_num_val_prefix(t, j);
        lemma_num_val_nonneg(t);
    }
}

/// The canonical digit string of `n` is non-empty, all digits, without a
/// leading zero, and denotes `n`.
proof fn lemma_num_digits_ok(n: nat)
    ensures
        num_digits(n).len() >= 1,
        all_digits(num_digits(n)),
        num_val(num_digits(n)) == n,
        num_digits(n).len() > 1 ==> num_digits(n)[0] != 48,
        canonical_digits(num_digits(n)),
    decreases n,
{
    if n <= 9 {
        let d = num_digits(n);
        assert(d == seq![(48 + n) as u8]);
        assert(d.drop_last() =~= Seq::<u8>::empty());
        assert(num_val(Seq::<u8>::empty()) == 0);
        assert(d.last() == (48 + n) as u8);
        assert(digit_val((48 + n) as u8) == n);
        assert(num_val(d) == n);
    } else {
        lemma_num_digits_ok(n / 10);
        let t = num_digits(n / 10);
        let c = (48 + n % 10) as u8;
        let d = t.push(c);
        assert(d.drop_last() =~= t);
        assert(d.last() == c);
        vstd::arithmetic::div_mod::lemma_fundamental_div_mod(n as int, 10);
        assert(n / 10 >= 1);
        assert(num_val(d) == num_val(t) * 10 + (n % 10));
        assert(d[0] == t[0]);
        if n / 10 <= 9 {
            assert(t == seq![(48 + n / 10) as u8]);
            assert(t[0] == (48 + n / 10) as u8);
            assert(t[0] != 48);
        } else {
            lemma_num_digits_ok(n / 10 / 10);
            assert(t == num_digits(n / 10 / 10).push((48 + (n / 10) % 10) as u8));
            assert(t.len() > 1);
            assert(t[0] != 48);
        }
    }
}

/// A canonical digit string is recovered from the number it denotes.
proof fn lemma_canonical_roundtrip(s: Seq<u8>)
    requires
        canonical_digits(s),
    ensures
        num_val(s) >= 0,
        num_digits(num_val(s) as nat) == s,
    decreases s.len(),
{
    lemma_num_val_nonneg(s);
    if s.len() == 1 {
        assert(s.drop_last() =~= Seq::<u8>::empty());
        assert(num_val(Seq::<u8>::empty()) == 0);
        assert(s.last() == s[0]);
        assert(num_val(s) == digit_val(s[0]));
        assert(num_val(s) <= 9);
        assert(num_digits(num_val(s) as nat) == seq![(48 + num_val(s) as nat) as u8]);
        assert(num_digits(num_val(s) as nat) =~= s);
    } else {
        let t = s.drop_last();
        let d = digit_val(s.last());
        assert(t[0] == s[0]);
        lemma_num_val_pos(t);
        lemma_canonical_roundtrip(t);
        let v = num_val(s);
        assert(v == num_val(t) * 10 + d);
        vstd::arithmetic::div_mod::lemma_fundamental_div_mod_converse(
            v,
            10,
            num_val(t),
            d,
        );
        assert(v / 10 == num_val(t) && v % 10 == d);
        assert(v >= 10) by {
            assert(num_val(t) >= 1);
        }
        assert(num_digits(v as nat) == num_digits((v as nat) / 10).push(
            (48 + (v as nat) % 10) as u8,
        ));
        assert((v as nat) / 10 == num_val(t) && (v as nat) % 10 == d);
        assert(num_digits(num_val(s) as nat) =~= s);
    }
}

/// A version string splits at exactly one pair of dot positions.
pub proof fn lemma_split_unique(s: Seq<u8>, n1: int, m1: int, n2: int, m2: int)
    requires
        valid_split(s, n1, m1),
        valid_split(s, n2, m2),
    ensures
        n1 == n2,
        m1 == m2,
{
    if n1 < n2 {
        assert(s.subrange(0, n2)[n1] == s[n1]);
        assert(is_digit(s[n1]));
    }
    if n2 < n1 {
        assert(s.subrange(0, n1)[n2] == s[n2]);
        assert(is_digit(s[n2]));
    }
    if m1 < m2 {
        assert(s.subrange(n2 + 1, m2)[m1 - n2 - 1] == s[m1]);
        assert(is_digit(s[m1]));
    }
    if m2 < m1 {
        assert(s.subrange(n1 + 1, m1)[m2 - n1 - 1] == s[m2]);
        assert(is_digit(s[m2]));
    }
}

/// The canonical string of a version is a version string, splits only at the
/// positions the format put the dots, and denotes the version itself.
pub proof fn lemma_format_splits(v: VersionId)
    ensures
        ({
            let s = spec_format(v);
            let n = num_digits(v.major as nat).len() as int;
            let m = n + 1 + num_digits(v.minor as nat).len() as int;
            valid_split(s, n, m) && split_version(s, n, m) == v && canonical_digits(
                s.subrange(0, n),
            ) && canonical_digits(s.subrange(n + 1, m)) && canonical_digits(
                s.subrange(m + 1, s.len() as int),
            )
        }),
{
    let a = num_digits(v.major as nat);
    let b = num_digits(v.minor as nat);
    let c = num_digits(v.patch as nat);
    lemma_num_digits_ok(v.major as nat);
    lemma_num_digits_ok(v.minor as nat);
    lemma_num_digits_ok(v.patch as nat);
    let s = spec_format(v);
    let n = a.len() as int;
    let m = n + 1 + b.len() as int;
    assert(s.subrange(0, n) =~= a);
    assert(s.subrange(n + 1, m) =~= b);
    assert(s.subrange(m + 1, s.len() as int) =~= c);
    assert(s[n] == 46 && s[m] == 46);
    assert(split_version(s, n, m) == v);
}

/// Parsing a canonical version string, then formatting the result, gives the
/// string back: at any pair of dot positions at which a string of canonical
/// components splits, the denoted version formats to that same string.
pub proof fn lemma_parse_then_format(s: Seq<u8>, n: int, m: int)
    requires
        valid_split(s, n, m),
        canonical_digits(s.subrange(0, n)),
        canonical_digits(s.subrange(n + 1, m)),
        canonical_digits(s.subrange(m + 1, s.len() as int)),
    ensures
        spec_format(split_version(s, n, m)) == s,
{
    let a = s.subrange(0, n);
    let b = s.subrange(n + 1, m);
    let c = s.subrange(m + 1, s.len() as int);
    lemma_canonical_roundtrip(a);
    lemma_canonical_roundtrip(b);
    lemma_canonical_roundtrip(c);
    let v = split_version(s, n, m);
    assert(num_digits(v.major as nat) == a);
    assert(num_digits(v.minor as nat) == b);
    assert(num_digits(v.patch as nat) == c);
    assert(spec_format(v) =~= s);
}

/// Formatting a version, then parsing the result, gives the version back:
/// the canonical string of `v` splits validly, and every valid split of it
/// denotes `v` itself.
pub proof fn lemma_format_then_parse(v: VersionId)
    ensures
        exists|n: int, m: int| valid_split(spec_format(v), n, m),
        forall|n: int, m: int|
            valid_split(spec_format(v), n, m) ==> split_version(spec_format(v), n, m) == v,
{
    lemma_format_splits(v);
    let s = spec_format(v);
    let n0 = num_digits(v.major as nat).len() as int;
    let m0 = n0 + 1 + num_digits(v.minor as nat).len() as int;
    assert(valid_split(s, n0, m0));
    assert forall|n: int, m: int| valid_split(s, n, m) implies split_version(s, n, m) == v by {
        lemma_split_unique(s, n, m, n0, m0);
    }
}

/// Parses the digit substring `s[from..to]` as one version component.
fn parse_component(s: &[u8], from: usize, to: usize) -> (r: Result<u64, AggError>)
    requires
        from <= to <= s@.len(),
    ensures
        match r {
            Ok(x) => is_component(s@.subrange(from as int, to as int)) && x == num_val(
                s@.subrange(from as int, to as int),
            ),
            Err(e) => e == AggError::MalformedVersion && !is_component(
                s@.subrange(from as int, to as int),
            ),
        },
{
    let ghost sub = s@.subrange(from as int, to as int);
    if from == to {
        return Err(AggError::MalformedVersion);
    }
    let mut val: u64 = 0;
    let mut i: usize = from;
    while i < to
        invariant
            from <= i <= to <= s@.len(),
            all_digits(s@.subrange(from as int, i as int)),
            val == num_val(s@.subrange(from as int, i as int)),
        decreases to - i,
    {
        let ghost pre = s@.subrange(from as int, i as int);
        let ghost whole = s@.subrange(from as int, to as int);
        let c = s[i];
        if c < 48 || c > 57 {
            proof {
                assert(whole[i - from] == s@[i as int]);
                assert(!is_digit(whole[i - from]));
                assert(!all_digits(whole));
            }
            return Err(AggError::MalformedVersion);
        }
        let d = (c - 48) as u64;
        let wide: u128 = (val as u128) * 10 + (d as u128);
        proof {
            assert(s@.subrange(from as int, i + 1) =~= pre.push(c));
            assert(pre.push(c).drop_last() =~= pre);
            assert(num_val(pre.push(c)) == num_val(pre) * 10 + digit_val(c));
        }
        if wide > u64::MAX as u128 {
            proof {
                let ext = s@.subrange(from as int, i + 1);
                assert(num_val(ext) > u64::MAX);
                if all_digits(whole) {
                    lemma_num_val_prefix(whole, i + 1 - from);
                    assert(whole.subrange(0, i + 1 - from) =~= ext);
                    assert(num_val(whole) > u64::MAX);
                }
                assert(!is_component(whole));
            }
            return Err(AggError::MalformedVersion);
        }
        val = wide as u64;
        i += 1;
    }
    proof {
        assert(s@.subrange(from as int, i as int) =~= sub);
    }
    Ok(val)
}

/// Parses a "major.minor.patch" byte string into a version.
///
/// Fails with `MalformedVersion` exactly when the bytes are not three
/// dot-separated non-empty digit strings whose values fit the component type.
pub fn parse_version(s: &[u8]) -> (r: Result<VersionId, AggError>)
    ensures
        match r {
            Ok(v) => exists|n: int, m: int|
                valid_split(s@, n, m) && v == split_version(s@, n, m),
            Err(e) => e == AggError::MalformedVersion && forall|n: int, m: int|
                !valid_split(s@, n, m),
        },
{
    let len = s.len();
    // Find the first dot.
    let mut n: usize = 0;
    while n < len && s[n] != 46
        invariant
            0 <= n <= len == s@.len(),
            forall|k: int| 0 <= k < n ==> s@[k] != 46,
        decreases len - n,
    {
        n += 1;
    }
    if n == len {
        return Err(AggError::MalformedVersion);
    }
    // Find the second dot.
    let mut m: usize = n + 1;
    while m < len && s[m] != 46
        invariant
            n < m <= len == s@.len(),
            s@[n as int] == 46,
            forall|k: int| 0 <= k < n ==> s@[k] != 46,
            forall|k: int| n < k < m ==> s@[k] != 46,
        decreases len - m,
    {
        m += 1;
    }
    if m == len {
        proof {
            assert forall|n2: int, m2: int| !valid_split(s@, n2, m2) by {
                if valid_split(s@, n2, m2) {
                    assert(s@[n2] == 46 && s@[m2] == 46 && n2 < m2);
                    assert(n2 == n && m2 == n) by {
                        if n2 < n {
                        } else if n2 > n {
                            assert(s@.subrange(0, n2)[n as int] == s@[n as int]);
                            assert(is_digit(s@[n as int]));
                        }
                        if m2 < n {
                        } else if m2 > n {
                            assert(s@.subrange(0, m2)[n as int] == s@[n as int]);
                        }
                    }
                }
            }
        }
        return Err(AggError::MalformedVersion);
    }
    proof {
        // The dots of any valid split are exactly the two found.
        assert forall|n2: int, m2: int|
            valid_split(s@, n2, m2) implies n2 == n && m2 == m by {
            if n2 < n {
            } else if n2 > n {
                assert(s@.subrange(0, n2)[n as int] == s@[n as int]);
                assert(is_digit(s@[n as int]));
            }
            if m2 > m {
                assert(s@.subrange(n2 + 1, m2)[m - n2 - 1] == s@[m as int]);
                assert(is_digit(s@[m as int]));
            }
        }
    }
    let major = match parse_component(s, 0, n) {
        Ok(x) => x,
        Err(e) => {
            return Err(e);
        },
    };
    let minor = match parse_component(s, n + 1, m) {
        Ok(x) => x,
        Err(e) => {
            return Err(e);
        },
    };
    let patch = match parse_component(s, m + 1, len) {
        Ok(x) => x,
        Err(e) => {
            return Err(e);
        },
    };
    let v = VersionId { major, minor, patch };
    proof {
        assert(valid_split(s@, n as int, m as int));
        assert(v == split_version(s@, n as int, m as int));
    }
    Ok(v)
}

/// Appends the canonical decimal digits of `n`.
fn push_digits(out: &mut Vec<u8>, n: u64)
    ensures
        final(out)@ == old(out)@ + num_digits(n as nat),
    decreases n,
{
    if n <= 9 {
        out.push((48 + n) as u8);
        assert(final(out)@ =~= old(out)@ + num_digits(n as nat));
    } else {
        push_digits(out, n / 10);
        out.push((48 + n % 10) as u8);
        assert(final(out)@ =~= old(out)@ + num_digits(n as nat));
    }
}

/// Formats a version as its canonical "major.minor.patch" byte string.
pub fn format_version(v: &VersionId) -> (r: Vec<u8>)
    ensures
        r@ == spec_format(*v),
{
    let mut out: Vec<u8> = Vec::new();
    push_digits(&mut out, v.major);
    out.push(46);
    push_digits(&mut out, v.minor);
    out.push(46);
    push_digits(&mut out, v.patch);
    assert(out@ =~= spec_format(*v));
    out
}

} // verus!
