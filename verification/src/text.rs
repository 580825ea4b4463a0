//! Verified character-level text utilities: substring search, replacement,
//! line splitting, case folding and lexicographic comparison.
//!
//! All executable routines work on `Vec<char>`, whose view is the same
//! `Seq<char>` that `String` and `&str` present, so contracts stated here
//! compose directly with contracts about strings.

use vstd::prelude::*;

verus! {

broadcast use vstd::string::group_string_axioms;

// ---------------------------------------------------------------------------
// Substring matching
// ---------------------------------------------------------------------------

/// `pat` occurs in `s` starting at index `i`.
pub open spec fn match_at(s: Seq<char>, pat: Seq<char>, i: int) -> bool {
    0 <= i && i + pat.len() <= s.len() && s.subrange(i, i + pat.len() as int) == pat
}

/// Index of the leftmost occurrence of `pat` in `s`, if any.
/// An empty pattern is treated as absent.
pub open spec fn first_match(s: Seq<char>, pat: Seq<char>) -> Option<nat>
    decreases s.len(),
{
    if pat.len() == 0 || s.len() < pat.len() {
        None
    } else if s.subrange(0, pat.len() as int) == pat {
        Some(0nat)
    } else {
        match first_match(s.subrange(1, s.len() as int), pat) {
            Some(i) => Some((i + 1) as nat),
            None => None,
        }
    }
}

pub open spec fn occurs(s: Seq<char>, pat: Seq<char>) -> bool {
    first_match(s, pat) is Some
}

/// `first_match` returns the least index at which `pat` matches, and `None`
/// exactly when no index matches.
pub proof fn lemma_first_match(s: Seq<char>, pat: Seq<char>)
    requires
        pat.len() > 0,
    ensures
        match first_match(s, pat) {
            Some(i) => match_at(s, pat, i as int) && (forall|j: int|
                0 <= j < i ==> !match_at(s, pat, j)),
            None => forall|j: int| !match_at(s, pat, j),
        },
    decreases s.len(),
{
    if s.len() < pat.len() {
        assert(forall|j: int| !match_at(s, pat, j));
    } else if s.subrange(0, pat.len() as int) == pat {
        assert(match_at(s, pat, 0));
    } else {
        let tail = s.subrange(1, s.len() as int);
        lemma_first_match(tail, pat);
        assert forall|j: int| 1 <= j && #[trigger] match_at(s, pat, j) implies match_at(
            tail,
            pat,
            j - 1,
        ) by {
            assert(tail.subrange(j - 1, j - 1 + pat.len()) =~= s.subrange(j, j + pat.len()));
        };
        assert forall|j: int| 0 <= j && #[trigger] match_at(tail, pat, j) implies match_at(
            s,
            pat,
            j + 1,
        ) by {
            assert(s.subrange(j + 1, j + 1 + pat.len()) =~= tail.subrange(j, j + pat.len()));
        };
        assert(!match_at(s, pat, 0));
        match first_match(tail, pat) {
            Some(i) => {
                assert(match_at(s, pat, i as int + 1));
                assert forall|j: int| 0 <= j < i + 1 implies !match_at(s, pat, j) by {
                    if j >= 1 {
                        assert(!match_at(tail, pat, j - 1));
                    }
                };
            },
            None => {
                assert forall|j: int| !match_at(s, pat, j) by {
                    if j >= 1 {
                        assert(!match_at(tail, pat, j - 1));
                    }
                };
            },
        }
    }
}

/// Character-by-character comparison of `pat` against the window of `s`
/// starting at `i`.
pub fn eq_at(s: &Vec<char>, pat: &Vec<char>, i: usize) -> (r: bool)
    requires
        i + pat@.len() <= s@.len(),
    ensures
        r == match_at(s@, pat@, i as int),
{
    let slen = s.len();
    let mut j: usize = 0;
    while j < pat.len()
        invariant
            slen == s@.len(),
            i + pat@.len() <= s@.len(),
            j <= pat@.len(),
            forall|k: int| 0 <= k < j ==> s@[i + k] == pat@[k],
        decreases pat@.len() - j,
    {
        if s[i + j] != pat[j] {
            proof {
                assert(s@.subrange(i as int, i + pat@.len())[j as int] != pat@[j as int]);
            }
            return false;
        }
        j += 1;
    }
    proof {
        assert(s@.subrange(i as int, i + pat@.len()) =~= pat@);
    }
    true
}

/// Leftmost occurrence of `pat` in `s`, as `first_match` describes it.
pub fn find_sub(s: &Vec<char>, pat: &Vec<char>) -> (r: Option<usize>)
    requires
        pat@.len() > 0,
    ensures
        match r {
            Some(i) => first_match(s@, pat@) == Some(i as nat),
            None => first_match(s@, pat@) is None,
        },
{
    proof {
        lemma_first_match(s@, pat@);
    }
    if s.len() < pat.len() {
        return None;
    }
    let mut i: usize = 0;
    while i <= s.len() - pat.len()
        invariant
            pat@.len() > 0,
            pat@.len() <= s@.len(),
            i <= s@.len() - pat@.len() + 1,
            forall|j: int| 0 <= j < i ==> !match_at(s@, pat@, j),
        decreases s@.len() - i,
    {
        if eq_at(s, pat, i) {
            proof {
                lemma_first_match(s@, pat@);
                match first_match(s@, pat@) {
                    Some(k) => {
                        if k < i as nat {
                            assert(!match_at(s@, pat@, k as int));
                        }
                    },
                    None => {
                        assert(!match_at(s@, pat@, i as int));
                    },
                }
            }
            return Some(i);
        }
        i += 1;
    }
    proof {
        lemma_first_match(s@, pat@);
        assert forall|j: int| !match_at(s@, pat@, j) by {
            if 0 <= j < i {
            } else if j >= i {
                assert(j + pat@.len() > s@.len());
            }
        };
    }
    None
}

pub fn contains_sub(s: &Vec<char>, pat: &Vec<char>) -> (r: bool)
    requires
        pat@.len() > 0,
    ensures
        r == occurs(s@, pat@),
{
    match find_sub(s, pat) {
        Some(_) => true,
        None => false,
    }
}

// ---------------------------------------------------------------------------
// Replacement of every occurrence, leftmost first, without overlap
// ---------------------------------------------------------------------------

/// What `str::replace` computes: scan left to right, substitute `val` for
/// each non-overlapping occurrence of `pat`.
pub open spec fn spec_replace(s: Seq<char>, pat: Seq<char>, val: Seq<char>) -> Seq<char>
    decreases s.len(),
{
    if pat.len() == 0 || s.len() < pat.len() {
        s
    } else if s.subrange(0, pat.len() as int) == pat {
        val + spec_replace(s.subrange(pat.len() as int, s.len() as int), pat, val)
    } else {
        seq![s[0]] + spec_replace(s.subrange(1, s.len() as int), pat, val)
    }
}

/// Appends all of `val` to `out`.
pub fn push_all(out: &mut Vec<char>, val: &Vec<char>)
    ensures
        final(out)@ == old(out)@ + val@,
{
    let mut j: usize = 0;
    while j < val.len()
        invariant
            j <= val@.len(),
            out@ == old(out)@ + val@.subrange(0, j as int),
        decreases val@.len() - j,
    {
        out.push(val[j]);
        proof {
            assert(old(out)@ + val@.subrange(0, j as int) + seq![val@[j as int]] =~= old(out)@
                + val@.subrange(0, j + 1));
        }
        j += 1;
    }
    proof {
        assert(val@.subrange(0, val@.len() as int) =~= val@);
    }
}

/// Replaces every occurrence of `pat` in `s` by `val`, leftmost first.
pub fn replace_all(s: &Vec<char>, pat: &Vec<char>, val: &Vec<char>) -> (r: Vec<char>)
    requires
        pat@.len() > 0,
    ensures
        r@ == spec_replace(s@, pat@, val@),
{
    let ghost whole = spec_replace(s@, pat@, val@);
    let mut out: Vec<char> = Vec::new();
    let mut i: usize = 0;
    proof {
        assert(s@.subrange(0, s@.len() as int) =~= s@);
        assert(Seq::<char>::empty() + whole =~= whole);
    }
    while i < s.len()
        invariant
            pat@.len() > 0,
            i <= s@.len(),
            whole == spec_replace(s@, pat@, val@),
            whole == out@ + spec_replace(s@.subrange(i as int, s@.len() as int), pat@, val@),
        decreases s@.len() - i,
    {
        let ghost rest = s@.subrange(i as int, s@.len() as int);
        if pat.len() <= s.len() - i && eq_at(s, pat, i) {
            push_all(&mut out, val);
            proof {
                assert(rest.subrange(0, pat@.len() as int) =~= s@.subrange(
                    i as int,
                    i + pat@.len(),
                ));
                assert(rest.subrange(pat@.len() as int, rest.len() as int) =~= s@.subrange(
                    i + pat@.len(),
                    s@.len() as int,
                ));
            }
            i += pat.len();
        } else {
            out.push(s[i]);
            proof {
                if i + pat@.len() <= s@.len() {
                    assert(rest.subrange(0, pat@.len() as int) =~= s@.subrange(
                        i as int,
                        i + pat@.len(),
                    ));
                }
                assert(rest.subrange(1, rest.len() as int) =~= s@.subrange(
                    i + 1,
                    s@.len() as int,
                ));
                assert(seq![rest[0]] =~= seq![s@[i as int]]);
            }
            i += 1;
        }
    }
    proof {
        assert(s@.subrange(s@.len() as int, s@.len() as int) =~= Seq::<char>::empty());
        assert(out@ + Seq::<char>::empty() =~= out@);
    }
    out
}

// ---------------------------------------------------------------------------
// Prefixes, suffixes, equality, slices
// ---------------------------------------------------------------------------

pub open spec fn starts_with(s: Seq<char>, pat: Seq<char>) -> bool {
    match_at(s, pat, 0)
}

pub open spec fn ends_with(s: Seq<char>, pat: Seq<char>) -> bool {
    match_at(s, pat, s.len() - pat.len())
}

pub fn has_prefix(s: &Vec<char>, pat: &Vec<char>) -> (r: bool)
    ensures
        r == starts_with(s@, pat@),
{
    if pat.len() <= s.len() {
        eq_at(s, pat, 0)
    } else {
        false
    }
}

pub fn has_suffix(s: &Vec<char>, pat: &Vec<char>) -> (r: bool)
    ensures
        r == ends_with(s@, pat@),
{
    if pat.len() <= s.len() {
        eq_at(s, pat, s.len() - pat.len())
    } else {
        false
    }
}

pub fn vec_eq(a: &Vec<char>, b: &Vec<char>) -> (r: bool)
    ensures
        r == (a@ == b@),
{
    if a.len() != b.len() {
        return false;
    }
    let r = eq_at(a, b, 0);
    proof {
        assert(a@.subrange(0, b@.len() as int) =~= a@);
    }
    r
}

/// Copies `v[from..to]` into a fresh vector.
pub fn copy_range(v: &Vec<char>, from: usize, to: usize) -> (r: Vec<char>)
    requires
        from <= to <= v@.len(),
    ensures
        r@ == v@.subrange(from as int, to as int),
{
    let mut r: Vec<char> = Vec::new();
    let mut i: usize = from;
    while i < to
        invariant
            from <= i <= to <= v@.len(),
            r@ == v@.subrange(from as int, i as int),
        decreases to - i,
    {
        r.push(v[i]);
        proof {
            assert(v@.subrange(from as int, i as int) + seq![v@[i as int]] =~= v@.subrange(
                from as int,
                i + 1,
            ));
        }
        i += 1;
    }
    r
}

// ---------------------------------------------------------------------------
// Last occurrence of a single character
// ---------------------------------------------------------------------------

/// Index of the rightmost occurrence of `c` in `s`, if any.
pub open spec fn last_index_of(s: Seq<char>, c: char) -> Option<nat>
    decreases s.len(),
{
    if s.len() == 0 {
        None
    } else if s[s.len() - 1] == c {
        Some((s.len() - 1) as nat)
    } else {
        last_index_of(s.drop_last(), c)
    }
}

pub proof fn lemma_last_index_of(s: Seq<char>, c: char)
    ensures
        match last_index_of(s, c) {
            Some(i) => i < s.len() && s[i as int] == c && (forall|j: int|
                i < j < s.len() ==> s[j] != c),
            None => forall|j: int| 0 <= j < s.len() ==> s[j] != c,
        },
    decreases s.len(),
{
    if s.len() == 0 {
    } else if s[s.len() - 1] == c {
    } else {
        lemma_last_index_of(s.drop_last(), c);
        assert(forall|j: int| 0 <= j < s.len() - 1 ==> s.drop_last()[j] == s[j]);
    }
}

pub fn rfind_char(v: &Vec<char>, c: char) -> (r: Option<usize>)
    ensures
        match r {
            Some(i) => last_index_of(v@, c) == Some(i as nat),
            None => last_index_of(v@, c) is None,
        },
{
    proof {
        lemma_last_index_of(v@, c);
    }
    let mut i: usize = v.len();
    while i > 0
        invariant
            i <= v@.len(),
            forall|j: int| i <= j < v@.len() ==> v@[j] != c,
        decreases i,
    {
        i -= 1;
        if v[i] == c {
            proof {
                lemma_last_index_of(v@, c);
                match last_index_of(v@, c) {
                    Some(k) => {
                        if k < i as nat {
                            assert(v@[i as int] == c);
                        }
                        if k > i as nat {
                            assert(v@[k as int] != c);
                        }
                    },
                    None => {
                        assert(v@[i as int] != c);
                    },
                }
            }
            return Some(i);
        }
    }
    proof {
        lemma_last_index_of(v@, c);
        match last_index_of(v@, c) {
            Some(k) => {
                assert(v@[k as int] != c);
            },
            None => {},
        }
    }
    None
}

// ---------------------------------------------------------------------------
// ASCII case folding
// ---------------------------------------------------------------------------

/// ASCII case folding of one character; other characters pass unchanged.
pub open spec fn lower_char(c: char) -> char {
    if 'A' <= c && c <= 'Z' {
        (((c as u8) + 32) as char)
    } else {
        c
    }
}

pub open spec fn spec_lower(s: Seq<char>) -> Seq<char> {
    s.map_values(|c: char| lower_char(c))
}

/// Folding twice folds no further.
pub proof fn lemma_lower_idempotent(s: Seq<char>)
    ensures
        spec_lower(spec_lower(s)) == spec_lower(s),
{
    assert forall|i: int| 0 <= i < s.len() implies lower_char(lower_char(s[i])) == lower_char(
        s[i],
    ) by {};
    assert(spec_lower(spec_lower(s)) =~= spec_lower(s));
}

pub fn to_lower(v: &Vec<char>) -> (r: Vec<char>)
    ensures
        r@ == spec_lower(v@),
{
    let mut r: Vec<char> = Vec::new();
    let mut i: usize = 0;
    while i < v.len()
        invariant
            i <= v@.len(),
            r@.len() == i,
            forall|j: int| 0 <= j < i ==> r@[j] == lower_char(v@[j]),
        decreases v@.len() - i,
    {
        let c = v[i];
        if 'A' <= c && c <= 'Z' {
            r.push(((c as u8) + 32) as char);
        } else {
            r.push(c);
        }
        i += 1;
    }
    proof {
        assert(r@ =~= spec_lower(v@));
    }
    r
}

// ---------------------------------------------------------------------------
// Conversion between strings and character vectors
// ---------------------------------------------------------------------------

/// Collects the characters of a string slice into a vector.
pub fn str_chars(s: &str) -> (v: Vec<char>)
    ensures
        v@ == s@,
{
    let mut v: Vec<char> = Vec::new();
    let mut it = s.chars();
    loop
        invariant
            vstd::std_specs::iter::IteratorSpec::obeys_prophetic_iter_laws(&it),
            vstd::std_specs::iter::IteratorSpec::decrease(&it) is Some,
            v@ + vstd::std_specs::iter::IteratorSpec::remaining(&it) == s@,
        ensures
            v@ == s@,
        decreases vstd::std_specs::iter::IteratorSpec::decrease(&it).unwrap(),
    {
        match it.next() {
            Some(c) => {
                v.push(c);
            },
            None => {
                proof {
                    assert(v@ =~= s@);
                }
                break;
            },
        }
    }
    v
}

/// Relies on `String`'s `FromIterator` impl, via `Iterator::collect`: the
/// collected string holds exactly the characters of the vector, in order.
#[verifier::external_body]
pub fn chars_string(v: &Vec<char>) -> (s: String)
    ensures
        s@ == v@,
{
    v.iter().collect()
}

// ---------------------------------------------------------------------------
// Lexicographic order on character sequences (code-point order, the same
// total order `str`'s `Ord` uses)
// ---------------------------------------------------------------------------

pub open spec fn lex_le(a: Seq<char>, b: Seq<char>) -> bool
    decreases a.len(),
{
    if a.len() == 0 {
        true
    } else if b.len() == 0 {
        false
    } else if (a[0] as u32) != (b[0] as u32) {
        (a[0] as u32) < (b[0] as u32)
    } else {
        lex_le(a.drop_first(), b.drop_first())
    }
}

pub proof fn lemma_lex_le_total(a: Seq<char>, b: Seq<char>)
    ensures
        lex_le(a, b) || lex_le(b, a),
    decreases a.len(),
{
    if a.len() == 0 || b.len() == 0 {
    } else if (a[0] as u32) != (b[0] as u32) {
    } else {
        lemma_lex_le_total(a.drop_first(), b.drop_first());
    }
}

pub proof fn lemma_lex_le_trans(a: Seq<char>, b: Seq<char>, c: Seq<char>)
    requires
        lex_le(a, b),
        lex_le(b, c),
    ensures
        lex_le(a, c),
    decreases a.len(),
{
    if a.len() == 0 {
    } else if b.len() == 0 {
    } else if c.len() == 0 {
    } else {
        if (a[0] as u32) == (b[0] as u32) && (b[0] as u32) == (c[0] as u32) {
            lemma_lex_le_trans(a.drop_first(), b.drop_first(), c.drop_first());
        }
    }
}

proof fn lemma_char_scalar_inj(a: char, b: char)
    requires
        (a as u32) == (b as u32),
    ensures
        a == b,
{
}

pub proof fn lemma_lex_le_antisym(a: Seq<char>, b: Seq<char>)
    requires
        lex_le(a, b),
        lex_le(b, a),
    ensures
        a == b,
    decreases a.len(),
{
    if a.len() == 0 {
        assert(b.len() == 0);
        assert(a =~= b);
    } else {
        assert(b.len() > 0);
        if (a[0] as u32) != (b[0] as u32) {
            assert((a[0] as u32) < (b[0] as u32));
            assert((b[0] as u32) < (a[0] as u32));
        }
        lemma_char_scalar_inj(a[0], b[0]);
        assert(a[0] == b[0]);
        lemma_lex_le_antisym(a.drop_first(), b.drop_first());
        assert(a.drop_first() == b.drop_first());
        assert forall|i: int| 0 <= i < a.len() implies a[i] == b[i] by {
            if i > 0 {
                assert(a[i] == a.drop_first()[i - 1]);
                assert(b[i] == b.drop_first()[i - 1]);
            }
        };
        assert(a =~= b);
    }
}

pub fn lex_le_vec(a: &Vec<char>, b: &Vec<char>) -> (r: bool)
    ensures
        r == lex_le(a@, b@),
{
    let mut i: usize = 0;
    proof {
        assert(a@.skip(0) =~= a@);
        assert(b@.skip(0) =~= b@);
    }
    loop
        invariant
            i <= a@.len(),
            i <= b@.len(),
            lex_le(a@, b@) == lex_le(a@.skip(i as int), b@.skip(i as int)),
        decreases a@.len() - i,
    {
        let ghost sa = a@.skip(i as int);
        let ghost sb = b@.skip(i as int);
        if i >= a.len() {
            proof {
                assert(sa.len() == 0);
            }
            return true;
        }
        if i >= b.len() {
            proof {
                assert(sb.len() == 0 && sa.len() > 0);
            }
            return false;
        }
        if (a[i] as u32) != (b[i] as u32) {
            proof {
                assert(sa[0] == a@[i as int] && sb[0] == b@[i as int]);
            }
            return (a[i] as u32) < (b[i] as u32);
        }
        proof {
            assert(sa[0] == a@[i as int] && sb[0] == b@[i as int]);
            assert(sa.drop_first() =~= a@.skip(i + 1));
            assert(sb.drop_first() =~= b@.skip(i + 1));
        }
        i += 1;
    }
}

// ---------------------------------------------------------------------------
// Lexicographic order on sequences of character sequences, as a tuple of
// string fields compares
// ---------------------------------------------------------------------------

pub open spec fn vecs_views(s: Seq<Vec<char>>) -> Seq<Seq<char>> {
    s.map_values(|x: Vec<char>| x@)
}

pub open spec fn lex2_le(a: Seq<Seq<char>>, b: Seq<Seq<char>>) -> bool
    decreases a.len(),
{
    if a.len() == 0 {
        true
    } else if b.len() == 0 {
        false
    } else if a[0] != b[0] {
        lex_le(a[0], b[0])
    } else {
        lex2_le(a.drop_first(), b.drop_first())
    }
}

pub proof fn lemma_lex2_le_total(a: Seq<Seq<char>>, b: Seq<Seq<char>>)
    ensures
        lex2_le(a, b) || lex2_le(b, a),
    decreases a.len(),
{
    if a.len() == 0 || b.len() == 0 {
    } else if a[0] != b[0] {
        lemma_lex_le_total(a[0], b[0]);
    } else {
        lemma_lex2_le_total(a.drop_first(), b.drop_first());
    }
}

pub proof fn lemma_lex2_le_trans(a: Seq<Seq<char>>, b: Seq<Seq<char>>, c: Seq<Seq<char>>)
    requires
        lex2_le(a, b),
        lex2_le(b, c),
    ensures
        lex2_le(a, c),
    decreases a.len(),
{
    if a.len() == 0 {
    } else if b.len() == 0 {
    } else if c.len() == 0 {
    } else {
        if a[0] == b[0] && b[0] == c[0] {
            lemma_lex2_le_trans(a.drop_first(), b.drop_first(), c.drop_first());
        } else if a[0] == b[0] {
            assert(lex_le(b[0], c[0]));
        } else if b[0] == c[0] {
            assert(lex_le(a[0], b[0]));
        } else {
            lemma_lex_le_trans(a[0], b[0], c[0]);
            if a[0] == c[0] {
                lemma_lex_le_antisym(a[0], b[0]);
            }
        }
    }
}

pub proof fn lemma_lex2_le_antisym(a: Seq<Seq<char>>, b: Seq<Seq<char>>)
    requires
        lex2_le(a, b),
        lex2_le(b, a),
    ensures
        a == b,
    decreases a.len(),
{
    if a.len() == 0 {
        assert(b.len() == 0);
        assert(a =~= b);
    } else {
        assert(b.len() > 0);
        if a[0] != b[0] {
            lemma_lex_le_antisym(a[0], b[0]);
        }
        assert(a[0] == b[0]);
        lemma_lex2_le_antisym(a.drop_first(), b.drop_first());
        assert(a.drop_first() == b.drop_first());
        assert forall|i: int| 0 <= i < a.len() implies a[i] == b[i] by {
            if i > 0 {
                assert(a[i] == a.drop_first()[i - 1]);
                assert(b[i] == b.drop_first()[i - 1]);
            }
        };
        assert(a =~= b);
    }
}

pub fn lex2_le_vec(a: &Vec<Vec<char>>, b: &Vec<Vec<char>>) -> (r: bool)
    ensures
        r == lex2_le(vecs_views(a@), vecs_views(b@)),
{
    let mut i: usize = 0;
    proof {
        assert(vecs_views(a@).skip(0) =~= vecs_views(a@));
        assert(vecs_views(b@).skip(0) =~= vecs_views(b@));
    }
    loop
        invariant
            i <= a@.len(),
            i <= b@.len(),
            lex2_le(vecs_views(a@), vecs_views(b@)) == lex2_le(
                vecs_views(a@).skip(i as int),
                vecs_views(b@).skip(i as int),
            ),
        decreases a@.len() - i,
    {
        let ghost sa = vecs_views(a@).skip(i as int);
        let ghost sb = vecs_views(b@).skip(i as int);
        if i >= a.len() {
            proof {
                assert(sa.len() == 0);
            }
            return true;
        }
        if i >= b.len() {
            proof {
                assert(sb.len() == 0 && sa.len() > 0);
            }
            return false;
        }
        proof {
            assert(sa[0] == a@[i as int]@ && sb[0] == b@[i as int]@);
        }
        if !vec_eq(&a[i], &b[i]) {
            return lex_le_vec(&a[i], &b[i]);
        }
        proof {
            assert(sa.drop_first() =~= vecs_views(a@).skip(i + 1));
            assert(sb.drop_first() =~= vecs_views(b@).skip(i + 1));
        }
        i += 1;
    }
}

// ---------------------------------------------------------------------------
// Line splitting, the way `str::lines` does it: split on '\n', strip one
// trailing '\r' from each piece, and ignore a final empty piece
// ---------------------------------------------------------------------------

pub open spec fn strip_cr(l: Seq<char>) -> Seq<char> {
    if l.len() > 0 && l[l.len() - 1] == '\r' {
        l.drop_last()
    } else {
        l
    }
}

pub open spec fn spec_lines(s: Seq<char>) -> Seq<Seq<char>>
    decreases s.len(),
    via spec_lines_decreases
{
    if s.len() == 0 {
        Seq::empty()
    } else {
        match first_match(s, seq!['\n']) {
            None => seq![strip_cr(s)],
            Some(i) => seq![strip_cr(s.subrange(0, i as int))] + spec_lines(
                s.subrange(i as int + 1, s.len() as int),
            ),
        }
    }
}

#[via_fn]
proof fn spec_lines_decreases(s: Seq<char>) {
    if s.len() != 0 {
        lemma_first_match(s, seq!['\n']);
    }
}

/// Joining lines back, with one '\n' after every line.
pub open spec fn spec_unlines(ls: Seq<Seq<char>>) -> Seq<char>
    decreases ls.len(),
{
    if ls.len() == 0 {
        Seq::empty()
    } else {
        ls[0] + seq!['\n'] + spec_unlines(ls.drop_first())
    }
}

/// Splits `v` into its lines.
pub fn split_lines(v: &Vec<char>) -> (r: Vec<Vec<char>>)
    ensures
        r@.len() == spec_lines(v@).len(),
        forall|i: int| 0 <= i < r@.len() ==> r@[i]@ == spec_lines(v@)[i],
{
    let mut nl: Vec<char> = Vec::new();
    nl.push('\n');
    proof {
        assert(nl@ =~= seq!['\n']);
    }
    let mut out: Vec<Vec<char>> = Vec::new();
    let mut start: usize = 0;
    proof {
        assert(v@.skip(0) =~= v@);
    }
    while start < v.len()
        invariant
            nl@ == seq!['\n'],
            start <= v@.len(),
            spec_lines(v@).len() == out@.len() + spec_lines(v@.skip(start as int)).len(),
            forall|i: int| 0 <= i < out@.len() ==> out@[i]@ == spec_lines(v@)[i],
            forall|i: int|
                0 <= i < spec_lines(v@.skip(start as int)).len() ==> spec_lines(
                    v@.skip(start as int),
                )[i] == spec_lines(v@)[out@.len() + i],
        decreases v@.len() - start,
    {
        let ghost rest = v@.skip(start as int);
        let ghost out0 = out@;
        let suffix = copy_range(v, start, v.len());
        proof {
            assert(suffix@ =~= rest);
            assert(rest.len() > 0);
        }
        match find_sub(&suffix, &nl) {
            Some(k) => {
                proof {
                    lemma_first_match(rest, seq!['\n']);
                }
                let mut line = copy_range(&suffix, 0, k);
                if line.len() > 0 && line[line.len() - 1] == '\r' {
                    line.pop();
                }
                let ghost rest2 = v@.skip(start + k + 1);
                proof {
                    assert(line@ =~= strip_cr(rest.subrange(0, k as int)));
                    assert(rest.subrange(k as int + 1, rest.len() as int) =~= rest2);
                    assert(spec_lines(rest) == seq![strip_cr(rest.subrange(0, k as int))]
                        + spec_lines(rest2));
                    assert(spec_lines(rest)[0] == line@);
                }
                out.push(line);
                start = start + k + 1;
                proof {
                    assert(out@[out0.len() as int]@ == line@);
                    assert(line@ == spec_lines(v@)[out0.len() as int]);
                    assert forall|i: int| 0 <= i < spec_lines(rest2).len() implies spec_lines(
                        rest2,
                    )[i] == spec_lines(v@)[out@.len() + i] by {
                        assert(spec_lines(rest)[i + 1] == spec_lines(rest2)[i]);
                        assert(spec_lines(rest)[i + 1] == spec_lines(v@)[out0.len() + i + 1]);
                    };
                }
            },
            None => {
                let mut line = suffix;
                if line.len() > 0 && line[line.len() - 1] == '\r' {
                    line.pop();
                }
                proof {
                    assert(line@ =~= strip_cr(rest));
                    assert(spec_lines(rest) == seq![strip_cr(rest)]);
                    assert(spec_lines(rest)[0] == line@);
                }
                out.push(line);
                start = v.len();
                proof {
                    assert(v@.skip(v@.len() as int) =~= Seq::<char>::empty());
                    assert(spec_lines(v@.skip(v@.len() as int)).len() == 0);
                    assert(out@[out0.len() as int]@ == spec_lines(v@)[out0.len() as int]);
                }
            },
        }
    }
    proof {
        assert(v@.skip(v@.len() as int) =~= Seq::<char>::empty());
    }
    out
}

} // verus!
