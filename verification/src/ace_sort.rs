use vstd::prelude::*;

verus! {

use core::cmp::Ordering;
use vstd::slice::slice_subrange;
use vstd::string::StringSliceAdditionalSpecFns;

/// True of a byte that encodes an ASCII decimal digit.
pub open spec fn is_digit_byte(b: u8) -> bool {
    48 <= b <= 57
}

/// Length of the literal (non-digit) prefix of `s`: the index of the first
/// ASCII digit, or `s.len()` if there is none.
pub open spec fn literal_len(s: Seq<u8>) -> int
    decreases s.len(),
{
    if s.len() == 0 || is_digit_byte(s[0]) {
        0
    } else {
        1 + literal_len(s.drop_first())
    }
}

/// Length of the digit run at the start of `s`.
pub open spec fn digit_run_len(s: Seq<u8>) -> int
    decreases s.len(),
{
    if s.len() == 0 || !is_digit_byte(s[0]) {
        0
    } else {
        1 + digit_run_len(s.drop_first())
    }
}

/// Length of the run of `'0'` bytes at the start of `s` (the zero-padding of
/// a digit run that starts there).
pub open spec fn zero_run_len(s: Seq<u8>) -> int
    decreases s.len(),
{
    if s.len() == 0 || s[0] != 48 {
        0
    } else {
        1 + zero_run_len(s.drop_first())
    }
}

/// `literal_len(s)` is the index of the first digit byte: it is in bounds,
/// no byte before it is a digit, and the byte there (if any) is one.
pub proof fn lemma_literal_len(s: Seq<u8>)
    ensures
        0 <= literal_len(s) <= s.len(),
        forall|j: int| 0 <= j < literal_len(s) ==> !is_digit_byte(s[j]),
        literal_len(s) < s.len() ==> is_digit_byte(s[literal_len(s)]),
        s.len() > 0 && !is_digit_byte(s[0]) ==> literal_len(s) > 0,
    decreases s.len(),
{
    if s.len() > 0 && !is_digit_byte(s[0]) {
        lemma_literal_len(s.drop_first());
        assert forall|j: int| 0 <= j < literal_len(s) implies !is_digit_byte(s[j]) by {
            if j > 0 {
                assert(s[j] == s.drop_first()[j - 1]);
            }
        }
    }
}

/// `digit_run_len(s)` is the length of the maximal digit prefix: it is in
/// bounds, every byte before it is a digit, and the byte there (if any) is
/// not.
pub proof fn lemma_digit_run_len(s: Seq<u8>)
    ensures
        0 <= digit_run_len(s) <= s.len(),
        forall|j: int| 0 <= j < digit_run_len(s) ==> is_digit_byte(s[j]),
        digit_run_len(s) < s.len() ==> !is_digit_byte(s[digit_run_len(s)]),
        s.len() > 0 && is_digit_byte(s[0]) ==> digit_run_len(s) > 0,
    decreases s.len(),
{
    if s.len() > 0 && is_digit_byte(s[0]) {
        lemma_digit_run_len(s.drop_first());
        assert forall|j: int| 0 <= j < digit_run_len(s) implies is_digit_byte(s[j]) by {
            if j > 0 {
                assert(s[j] == s.drop_first()[j - 1]);
            }
        }
    }
}

/// `zero_run_len(s)` is the length of the maximal `'0'` prefix: it is in
/// bounds, every byte before it is `'0'`, the byte there (if any) is not,
/// and the prefix never extends past the digit run.
pub proof fn lemma_zero_run_len(s: Seq<u8>)
    ensures
        0 <= zero_run_len(s) <= s.len(),
        forall|j: int| 0 <= j < zero_run_len(s) ==> s[j] == 48,
        zero_run_len(s) < s.len() ==> s[zero_run_len(s)] != 48,
        zero_run_len(s) <= digit_run_len(s),
    decreases s.len(),
{
    lemma_digit_run_len(s);
    if s.len() > 0 && s[0] == 48 {
        lemma_zero_run_len(s.drop_first());
        assert forall|j: int| 0 <= j < zero_run_len(s) implies s[j] == 48 by {
            if j > 0 {
                assert(s[j] == s.drop_first()[j - 1]);
            }
        }
    }
}

/// Three-way comparison of two integers.
pub open spec fn int_cmp(x: int, y: int) -> Ordering {
    if x < y {
        Ordering::Less
    } else if x > y {
        Ordering::Greater
    } else {
        Ordering::Equal
    }
}

/// Byte-wise lexicographic comparison, with a proper prefix ordered first.
pub open spec fn lex_cmp(a: Seq<u8>, b: Seq<u8>) -> Ordering
    decreases a.len(),
{
    if a.len() == 0 && b.len() == 0 {
        Ordering::Equal
    } else if a.len() == 0 {
        Ordering::Less
    } else if b.len() == 0 {
        Ordering::Greater
    } else if a[0] != b[0] {
        int_cmp(a[0] as int, b[0] as int)
    } else {
        lex_cmp(a.drop_first(), b.drop_first())
    }
}

/// The natural ("version-aware") ordering on byte strings.
///
/// Each string decomposes into an alternating sequence of literal segments
/// and digit runs. Literal segments compare lexicographically. Digit runs
/// compare as numbers of unbounded size: first by the length of their
/// significant digits (the run with its zero-padding removed), then
/// lexicographically, and on a tie the run with more zero-padding is the
/// greater. The first non-tie decides; two fully consumed strings are equal.
pub open spec fn ace_cmp_spec(a: Seq<u8>, b: Seq<u8>) -> Ordering
    decreases a.len() + b.len(),
    via ace_cmp_spec_decreases
{
    if a.len() == 0 && b.len() == 0 {
        Ordering::Equal
    } else {
        let lit = lex_cmp(a.take(literal_len(a)), b.take(literal_len(b)));
        if lit != Ordering::Equal {
            lit
        } else {
            let ar = a.skip(literal_len(a));
            let br = b.skip(literal_len(b));
            let asig = ar.subrange(zero_run_len(ar), digit_run_len(ar));
            let bsig = br.subrange(zero_run_len(br), digit_run_len(br));
            if asig.len() != bsig.len() {
                int_cmp(asig.len() as int, bsig.len() as int)
            } else if lex_cmp(asig, bsig) != Ordering::Equal {
                lex_cmp(asig, bsig)
            } else if zero_run_len(ar) != zero_run_len(br) {
                int_cmp(zero_run_len(ar), zero_run_len(br))
            } else {
                ace_cmp_spec(ar.skip(digit_run_len(ar)), br.skip(digit_run_len(br)))
            }
        }
    }
}

#[via_fn]
proof fn ace_cmp_spec_decreases(a: Seq<u8>, b: Seq<u8>) {
    lemma_literal_len(a);
    lemma_literal_len(b);
    assert(a.skip(0) =~= a);
    assert(b.skip(0) =~= b);
    lemma_digit_run_len(a.skip(literal_len(a)));
    lemma_digit_run_len(b.skip(literal_len(b)));
}

/// Matching prefixes do not affect the lexicographic comparison: if the
/// first `i` bytes agree, the comparison is decided by the remainders.
proof fn lemma_lex_cmp_skip(a: Seq<u8>, b: Seq<u8>, i: int)
    requires
        0 <= i <= a.len(),
        i <= b.len(),
        forall|j: int| 0 <= j < i ==> a[j] == b[j],
    ensures
        lex_cmp(a, b) == lex_cmp(a.skip(i), b.skip(i)),
    decreases i,
{
    if i > 0 {
        assert(a[0] == b[0]);
        assert forall|j: int| 0 <= j < i - 1 implies a.drop_first()[j] == b.drop_first()[j] by {
            assert(a.drop_first()[j] == a[j + 1]);
            assert(b.drop_first()[j] == b[j + 1]);
        }
        lemma_lex_cmp_skip(a.drop_first(), b.drop_first(), i - 1);
        assert(a.drop_first().skip(i - 1) =~= a.skip(i));
        assert(b.drop_first().skip(i - 1) =~= b.skip(i));
    } else {
        assert(a.skip(0) =~= a);
        assert(b.skip(0) =~= b);
    }
}

/// Index of the first ASCII digit in `s`, or `s.len()` if there is none.
fn find_digit_start(s: &[u8]) -> (i: usize)
    ensures
        i == literal_len(s@),
        i <= s@.len(),
{
    let mut i: usize = 0;
    while i < s.len() && !(48 <= s[i] && s[i] <= 57)
        invariant
            0 <= i <= s@.len(),
            forall|j: int| 0 <= j < i ==> !is_digit_byte(s@[j]),
        decreases s@.len() - i,
    {
        i = i + 1;
    }
    proof {
        lemma_literal_len(s@);
    }
    i
}

/// Length of the run of ASCII digits at the start of `s`.
fn find_digit_run_end(s: &[u8]) -> (i: usize)
    ensures
        i == digit_run_len(s@),
        i <= s@.len(),
{
    let mut i: usize = 0;
    while i < s.len() && 48 <= s[i] && s[i] <= 57
        invariant
            0 <= i <= s@.len(),
            forall|j: int| 0 <= j < i ==> is_digit_byte(s@[j]),
        decreases s@.len() - i,
    {
        i = i + 1;
    }
    proof {
        lemma_digit_run_len(s@);
    }
    i
}

/// Length of the run of `'0'` bytes at the start of `s`.
fn find_zero_run_end(s: &[u8]) -> (i: usize)
    ensures
        i == zero_run_len(s@),
        i <= s@.len(),
{
    let mut i: usize = 0;
    while i < s.len() && s[i] == 48
        invariant
            0 <= i <= s@.len(),
            forall|j: int| 0 <= j < i ==> s@[j] == 48,
        decreases s@.len() - i,
    {
        i = i + 1;
    }
    proof {
        lemma_zero_run_len(s@);
    }
    i
}

/// Byte-wise lexicographic comparison of two byte strings.
fn lex_cmp_bytes(a: &[u8], b: &[u8]) -> (r: Ordering)
    ensures
        r == lex_cmp(a@, b@),
{
    let mut i: usize = 0;
    while i < a.len() && i < b.len() && a[i] == b[i]
        invariant
            0 <= i <= a@.len(),
            i <= b@.len(),
            forall|j: int| 0 <= j < i ==> a@[j] == b@[j],
        decreases a@.len() - i,
    {
        i = i + 1;
    }
    proof {
        lemma_lex_cmp_skip(a@, b@, i as int);
        if i < a@.len() {
            assert(a@.skip(i as int)[0] == a@[i as int]);
        }
        if i < b@.len() {
            assert(b@.skip(i as int)[0] == b@[i as int]);
        }
    }
    if i < a.len() && i < b.len() {
        if a[i] < b[i] {
            Ordering::Less
        } else {
            Ordering::Greater
        }
    } else if i < b.len() {
        Ordering::Less
    } else if i < a.len() {
        Ordering::Greater
    } else {
        Ordering::Equal
    }
}

/// Compare two strings in natural ("version-aware") order.
///
/// Runs of ASCII digits compare by numeric magnitude, of any length, and
/// everything else compares byte-wise; a digit run with more zero-padding
/// is the greater when the significant digits tie. So `"chr2"` sorts before
/// `"chr10"`, and `"x002"` sorts after `"x02"`. A decimal point is not
/// special: it ends the digit run, so `"3.14"` sorts before `"3.015"`,
/// which is not numeric order over decimals.
pub fn ace_cmp(a: &str, b: &str) -> (r: Ordering)
    ensures
        r == ace_cmp_spec(a.spec_bytes(), b.spec_bytes()),
{
    let mut ab: &[u8] = a.as_bytes();
    let mut bb: &[u8] = b.as_bytes();
    loop
        invariant
            ace_cmp_spec(a.spec_bytes(), b.spec_bytes()) == ace_cmp_spec(ab@, bb@),
        decreases ab@.len() + bb@.len(),
    {
        if ab.len() == 0 && bb.len() == 0 {
            return Ordering::Equal;
        }
        let ghost ab0 = ab@;
        let ghost bb0 = bb@;
        let alit = find_digit_start(ab);
        let blit = find_digit_start(bb);
        let a_lit = slice_subrange(ab, 0, alit);
        let b_lit = slice_subrange(bb, 0, blit);
        proof {
            assert(a_lit@ =~= ab0.take(literal_len(ab0)));
            assert(b_lit@ =~= bb0.take(literal_len(bb0)));
        }
        match lex_cmp_bytes(a_lit, b_lit) {
            Ordering::Equal => {}
            ord => {
                return ord;
            },
        }
        let ar = slice_subrange(ab, alit, ab.len());
        let br = slice_subrange(bb, blit, bb.len());
        proof {
            assert(ar@ =~= ab0.skip(literal_len(ab0)));
            assert(br@ =~= bb0.skip(literal_len(bb0)));
        }
        let arun = find_digit_run_end(ar);
        let brun = find_digit_run_end(br);
        let az = find_zero_run_end(ar);
        let bz = find_zero_run_end(br);
        proof {
            lemma_zero_run_len(ar@);
            lemma_zero_run_len(br@);
        }
        let asig = slice_subrange(ar, az, arun);
        let bsig = slice_subrange(br, bz, brun);
        if asig.len() != bsig.len() {
            if asig.len() < bsig.len() {
                return Ordering::Less;
            } else {
                return Ordering::Greater;
            }
        }
        match lex_cmp_bytes(asig, bsig) {
            Ordering::Equal => {}
            ord => {
                return ord;
            },
        }
        if az != bz {
            if az < bz {
                return Ordering::Less;
            } else {
                return Ordering::Greater;
            }
        }
        let a_rest = slice_subrange(ar, arun, ar.len());
        let b_rest = slice_subrange(br, brun, br.len());
        proof {
            assert(a_rest@ =~= ar@.skip(digit_run_len(ar@)));
            assert(b_rest@ =~= br@.skip(digit_run_len(br@)));
            lemma_literal_len(ab0);
            lemma_literal_len(bb0);
            lemma_digit_run_len(ar@);
            lemma_digit_run_len(br@);
            if ab0.len() > 0 && literal_len(ab0) == 0 {
                assert(ar@ == ab0);
                assert(is_digit_byte(ab0[0]));
            }
            if bb0.len() > 0 && literal_len(bb0) == 0 {
                assert(br@ == bb0);
                assert(is_digit_byte(bb0[0]));
            }
        }
        ab = a_rest;
        bb = b_rest;
    }
}

/// The mirror image of an ordering: what the comparison of the swapped
/// arguments must return.
pub open spec fn opposite(o: Ordering) -> Ordering {
    match o {
        Ordering::Less => Ordering::Greater,
        Ordering::Equal => Ordering::Equal,
        Ordering::Greater => Ordering::Less,
    }
}

/// Lexicographic comparison of a string with itself is `Equal`.
pub proof fn lemma_lex_cmp_reflexive(s: Seq<u8>)
    ensures
        lex_cmp(s, s) == Ordering::Equal,
    decreases s.len(),
{
    if s.len() > 0 {
        lemma_lex_cmp_reflexive(s.drop_first());
    }
}

/// Lexicographic comparison answers `Equal` only on identical strings.
pub proof fn lemma_lex_cmp_equal(a: Seq<u8>, b: Seq<u8>)
    requires
        lex_cmp(a, b) == Ordering::Equal,
    ensures
        a == b,
    decreases a.len(),
{
    if a.len() > 0 && b.len() > 0 && a[0] == b[0] {
        lemma_lex_cmp_equal(a.drop_first(), b.drop_first());
        assert forall|j: int| 0 <= j < a.len() implies a[j] == b[j] by {
            if j > 0 {
                assert(a[j] == a.drop_first()[j - 1]);
                assert(b[j] == b.drop_first()[j - 1]);
            }
        }
        assert(a =~= b);
    }
}

/// Swapping the arguments of the lexicographic comparison mirrors the
/// result.
pub proof fn lemma_lex_cmp_antisymmetric(a: Seq<u8>, b: Seq<u8>)
    ensures
        lex_cmp(b, a) == opposite(lex_cmp(a, b)),
    decreases a.len(),
{
    if a.len() > 0 && b.len() > 0 && a[0] == b[0] {
        lemma_lex_cmp_antisymmetric(a.drop_first(), b.drop_first());
    }
}

/// Reflexivity of the natural order: every string compares `Equal` to
/// itself.
pub proof fn lemma_ace_cmp_reflexive(s: Seq<u8>)
    ensures
        ace_cmp_spec(s, s) == Ordering::Equal,
    decreases s.len(),
{
    if s.len() > 0 {
        lemma_literal_len(s);
        lemma_lex_cmp_reflexive(s.take(literal_len(s)));
        let ar = s.skip(literal_len(s));
        lemma_digit_run_len(ar);
        lemma_zero_run_len(ar);
        lemma_lex_cmp_reflexive(ar.subrange(zero_run_len(ar), digit_run_len(ar)));
        assert(s.skip(0) =~= s);
        lemma_ace_cmp_reflexive(ar.skip(digit_run_len(ar)));
    }
}

/// Antisymmetry of the natural order: swapping the arguments mirrors the
/// result, so exactly one of `Less`, `Equal` and `Greater` relates any two
/// strings.
pub proof fn lemma_ace_cmp_antisymmetric(a: Seq<u8>, b: Seq<u8>)
    ensures
        ace_cmp_spec(b, a) == opposite(ace_cmp_spec(a, b)),
    decreases a.len() + b.len(),
{
    if !(a.len() == 0 && b.len() == 0) {
        lemma_literal_len(a);
        lemma_literal_len(b);
        lemma_lex_cmp_antisymmetric(a.take(literal_len(a)), b.take(literal_len(b)));
        let ar = a.skip(literal_len(a));
        let br = b.skip(literal_len(b));
        lemma_digit_run_len(ar);
        lemma_digit_run_len(br);
        lemma_zero_run_len(ar);
        lemma_zero_run_len(br);
        let asig = ar.subrange(zero_run_len(ar), digit_run_len(ar));
        let bsig = br.subrange(zero_run_len(br), digit_run_len(br));
        lemma_lex_cmp_antisymmetric(asig, bsig);
        if lex_cmp(a.take(literal_len(a)), b.take(literal_len(b))) == Ordering::Equal
            && asig.len() == bsig.len() && lex_cmp(asig, bsig) == Ordering::Equal
            && zero_run_len(ar) == zero_run_len(br) {
            assert(a.skip(0) =~= a);
            assert(b.skip(0) =~= b);
            lemma_ace_cmp_antisymmetric(ar.skip(digit_run_len(ar)), br.skip(digit_run_len(br)));
        }
    }
}

/// The natural order answers `Equal` only on identical strings: the
/// zero-padding tie-break keeps even numerically equal digit runs apart,
/// so the comparison never collapses two distinct strings.
pub proof fn lemma_ace_cmp_equal_only_identical(a: Seq<u8>, b: Seq<u8>)
    requires
        ace_cmp_spec(a, b) == Ordering::Equal,
    ensures
        a == b,
    decreases a.len() + b.len(),
{
    if a.len() == 0 && b.len() == 0 {
        assert(a =~= b);
    } else {
        lemma_literal_len(a);
        lemma_literal_len(b);
        let ar = a.skip(literal_len(a));
        let br = b.skip(literal_len(b));
        lemma_digit_run_len(ar);
        lemma_digit_run_len(br);
        lemma_zero_run_len(ar);
        lemma_zero_run_len(br);
        let asig = ar.subrange(zero_run_len(ar), digit_run_len(ar));
        let bsig = br.subrange(zero_run_len(br), digit_run_len(br));
        lemma_lex_cmp_equal(a.take(literal_len(a)), b.take(literal_len(b)));
        lemma_lex_cmp_equal(asig, bsig);
        assert(literal_len(a) == literal_len(b));
        assert(zero_run_len(ar) == zero_run_len(br));
        assert(digit_run_len(ar) == digit_run_len(br));
        assert(ar.take(digit_run_len(ar)) =~= br.take(digit_run_len(br))) by {
            assert forall|j: int| 0 <= j < digit_run_len(ar)
                implies ar[j] == br[j] by {
                if j < zero_run_len(ar) {
                    assert(ar[j] == 48);
                    assert(br[j] == 48);
                } else {
                    assert(ar[j] == asig[j - zero_run_len(ar)]);
                    assert(br[j] == bsig[j - zero_run_len(br)]);
                }
            }
        }
        assert(a.skip(0) =~= a);
        assert(b.skip(0) =~= b);
        lemma_ace_cmp_equal_only_identical(ar.skip(digit_run_len(ar)), br.skip(digit_run_len(br)));
        assert(a =~= a.take(literal_len(a)) + ar.take(digit_run_len(ar)) + ar.skip(digit_run_len(ar)));
        assert(b =~= b.take(literal_len(b)) + br.take(digit_run_len(br)) + br.skip(digit_run_len(br)));
    }
}

} // verus!
