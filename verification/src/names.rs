//! Folder-name logic: lowercase folding, last-occurrence substring search,
//! marker substitution, file-extension matching, and path joining.
//!
//! The substitution that predicts a transcode folder's name works on the
//! lowercased folder name: the last occurrence of the literal marker text is
//! replaced by the (lowercased) replacement text. Lowercasing itself is done
//! by the standard library and is only named here (`lower_of`); everything
//! after it is verified against exact contracts.

use vstd::prelude::*;

verus! {

/// What `str::to_lowercase` returns for a given sequence of characters.
/// The result depends on the characters alone.
pub uninterp spec fn lower_of(s: Seq<char>) -> Seq<char>;

/// Relies on str::to_lowercase: lowercases the string; the result depends on
/// the input characters alone.
#[verifier::external_body]
fn lowercase(s: &str) -> (r: String)
    ensures
        r@ == lower_of(s@),
{
    s.to_lowercase()
}

/// The marker `m` occurs in `s` starting at index `i`.
pub open spec fn occurs_at(s: Seq<char>, m: Seq<char>, i: int) -> bool {
    0 <= i && i + m.len() <= s.len() && s.subrange(i, i + m.len()) == m
}

/// The marker `m` occurs somewhere in `s`.
pub open spec fn has_occurrence(s: Seq<char>, m: Seq<char>) -> bool {
    exists|i: int| occurs_at(s, m, i)
}

/// `i` is the start of the last (highest-index) occurrence of `m` in `s`.
pub open spec fn is_last_occurrence(s: Seq<char>, m: Seq<char>, i: int) -> bool {
    occurs_at(s, m, i) && (forall|j: int| occurs_at(s, m, j) ==> j <= i)
}

/// The start of the last occurrence of `m` among indices below `k`, if any.
pub open spec fn last_occurrence_below(s: Seq<char>, m: Seq<char>, k: nat) -> Option<int>
    decreases k,
{
    if k == 0 {
        None
    } else if occurs_at(s, m, k - 1) {
        Some(k - 1)
    } else {
        last_occurrence_below(s, m, (k - 1) as nat)
    }
}

/// The start of the last occurrence of `m` in `s`, if any.
pub open spec fn last_occurrence(s: Seq<char>, m: Seq<char>) -> Option<int> {
    if m.len() <= s.len() {
        last_occurrence_below(s, m, (s.len() - m.len() + 1) as nat)
    } else {
        None
    }
}

/// `s` with the `m.len()` characters starting at `i` replaced by `r`.
pub open spec fn replace_at(s: Seq<char>, m: Seq<char>, r: Seq<char>, i: int) -> Seq<char> {
    s.subrange(0, i) + r + s.subrange(i + m.len(), s.len() as int)
}

/// `s` with the last occurrence of `m` replaced by `r`; absent when `m` does
/// not occur in `s`.
pub open spec fn replace_last_spec(s: Seq<char>, m: Seq<char>, r: Seq<char>) -> Option<Seq<char>> {
    match last_occurrence(s, m) {
        Some(i) => Some(replace_at(s, m, r, i)),
        None => None,
    }
}

/// The candidate sibling-folder leaf name derived from a folder name: the
/// name is lowercased, and the last occurrence of the literal marker in it is
/// replaced by the lowercased replacement text.
pub open spec fn derived_candidate(
    name: Seq<char>,
    marker: Seq<char>,
    replacement: Seq<char>,
) -> Option<Seq<char>> {
    replace_last_spec(lower_of(name), marker, lower_of(replacement))
}

/// The view of an optional string.
pub open spec fn opt_str_view(r: Option<String>) -> Option<Seq<char>> {
    match r {
        Some(s) => Some(s@),
        None => None,
    }
}

/// `parent` and `leaf` joined with a path separator.
pub open spec fn joined(parent: Seq<char>, leaf: Seq<char>) -> Seq<char> {
    parent + "/"@ + leaf
}

/// `i` is the index of the last dot in `name`.
pub open spec fn last_dot(name: Seq<char>, i: int) -> bool {
    0 <= i < name.len() && name[i] == '.' && (forall|j: int| i < j < name.len() ==> name[j] != '.')
}

/// `name` has extension `ext`: everything after the last dot equals `ext`,
/// and that dot is neither absent nor the leading character (a name that is
/// all extension, such as a hidden file, has no extension).
pub open spec fn extension_is(name: Seq<char>, ext: Seq<char>) -> bool {
    exists|i: int|
        last_dot(name, i) && 0 < i && ext == name.subrange(i + 1, name.len() as int)
}

/// Whether `m` occurs in `s` starting at character index `i`.
pub fn match_at(s: &str, m: &str, i: usize) -> (b: bool)
    requires
        i + m@.len() <= s@.len(),
    ensures
        b == occurs_at(s@, m@, i as int),
{
    let sl = s.unicode_len();
    let ml = m.unicode_len();
    let mut j: usize = 0;
    while j < ml
        invariant
            0 <= j <= ml,
            ml == m@.len(),
            sl == s@.len(),
            i + ml <= sl,
            forall|t: int| 0 <= t < j ==> s@[i + t] == m@[t],
        decreases ml - j,
    {
        if s.get_char(i + j) != m.get_char(j) {
            proof {
                if occurs_at(s@, m@, i as int) {
                    assert(s@.subrange(i as int, i + m@.len())[j as int] == m@[j as int]);
                }
            }
            return false;
        }
        j += 1;
    }
    proof {
        assert(s@.subrange(i as int, i + m@.len()) =~= m@);
    }
    true
}

/// The start of the last occurrence of `m` in `s`, searched from the top.
pub fn find_last_occurrence(s: &str, m: &str) -> (r: Option<usize>)
    ensures
        match r {
            Some(i) => last_occurrence(s@, m@) == Some(i as int),
            None => last_occurrence(s@, m@) is None,
        },
{
    let n = s.unicode_len();
    let ml = m.unicode_len();
    if ml > n {
        return None;
    }
    if ml == 0 {
        proof {
            assert(s@.subrange(n as int, n as int) =~= m@);
            assert(occurs_at(s@, m@, n as int));
        }
        return Some(n);
    }
    let mut k: usize = n - ml + 1;
    loop
        invariant
            n == s@.len(),
            ml == m@.len(),
            1 <= ml <= n,
            0 <= k <= n - ml + 1,
            last_occurrence(s@, m@) == last_occurrence_below(s@, m@, k as nat),
        decreases k,
    {
        if k == 0 {
            return None;
        }
        if match_at(s, m, k - 1) {
            return Some(k - 1);
        }
        k = k - 1;
    }
}

/// Everything `last_occurrence_below` promises: its result is the highest
/// occurrence start below `k`, or there is none.
pub proof fn lemma_last_occurrence_below_correct(s: Seq<char>, m: Seq<char>, k: nat)
    ensures
        match last_occurrence_below(s, m, k) {
            Some(i) => occurs_at(s, m, i) && i < k && (forall|j: int|
                i < j < k ==> !occurs_at(s, m, j)),
            None => forall|j: int| 0 <= j < k ==> !occurs_at(s, m, j),
        },
    decreases k,
{
    if k == 0 {
    } else if occurs_at(s, m, k - 1) {
    } else {
        lemma_last_occurrence_below_correct(s, m, (k - 1) as nat);
    }
}

/// `last_occurrence` finds the last occurrence exactly: a found index is the
/// last occurrence, and absence means the marker does not occur at all.
pub proof fn lemma_last_occurrence_correct(s: Seq<char>, m: Seq<char>)
    ensures
        match last_occurrence(s, m) {
            Some(i) => is_last_occurrence(s, m, i),
            None => !has_occurrence(s, m),
        },
{
    if m.len() <= s.len() {
        let k = (s.len() - m.len() + 1) as nat;
        lemma_last_occurrence_below_correct(s, m, k);
        assert(forall|j: int| occurs_at(s, m, j) ==> j < k);
        match last_occurrence_below(s, m, k) {
            Some(i) => {
                assert forall|j: int| occurs_at(s, m, j) implies j <= i by {
                    assert(j < k);
                }
            },
            None => {
                assert(!has_occurrence(s, m)) by {
                    if has_occurrence(s, m) {
                        let j = choose|j: int| occurs_at(s, m, j);
                        assert(0 <= j < k);
                    }
                }
            },
        }
    } else {
        assert(!has_occurrence(s, m)) by {
            if has_occurrence(s, m) {
                let j = choose|j: int| occurs_at(s, m, j);
                assert(j + m.len() <= s.len());
            }
        }
    }
}

/// The last occurrence is unique.
pub proof fn lemma_last_occurrence_unique(s: Seq<char>, m: Seq<char>, i: int, j: int)
    requires
        is_last_occurrence(s, m, i),
        is_last_occurrence(s, m, j),
    ensures
        i == j,
{
    assert(i <= j);
    assert(j <= i);
}

/// The relation that defines the substitution's outcome: a present result is
/// the input with its last occurrence of `m` replaced by `rep`, and an absent
/// result means `m` does not occur at all.
pub open spec fn replacement_conforms(
    s: Seq<char>,
    m: Seq<char>,
    rep: Seq<char>,
    r: Option<Seq<char>>,
) -> bool {
    match r {
        Some(out) => exists|i: int| is_last_occurrence(s, m, i) && out == replace_at(s, m, rep, i),
        None => !has_occurrence(s, m),
    }
}

/// The substitution satisfies its defining relation.
pub proof fn lemma_replace_last_spec_conforms(s: Seq<char>, m: Seq<char>, rep: Seq<char>)
    ensures
        replacement_conforms(s, m, rep, replace_last_spec(s, m, rep)),
{
    lemma_last_occurrence_correct(s, m);
    match last_occurrence(s, m) {
        Some(i) => {
            assert(is_last_occurrence(s, m, i) && replace_at(s, m, rep, i) == replace_at(
                s,
                m,
                rep,
                i,
            ));
        },
        None => {},
    }
}

/// Determinism of the substitution: any two outcomes that satisfy its
/// defining relation agree, so repeated invocation on identical inputs always
/// yields the identical result.
pub proof fn lemma_replacement_deterministic(
    s: Seq<char>,
    m: Seq<char>,
    rep: Seq<char>,
    r1: Option<Seq<char>>,
    r2: Option<Seq<char>>,
)
    requires
        replacement_conforms(s, m, rep, r1),
        replacement_conforms(s, m, rep, r2),
    ensures
        r1 == r2,
{
    match (r1, r2) {
        (Some(o1), Some(o2)) => {
            let i1 = choose|i: int| is_last_occurrence(s, m, i) && o1 == replace_at(s, m, rep, i);
            let i2 = choose|i: int| is_last_occurrence(s, m, i) && o2 == replace_at(s, m, rep, i);
            lemma_last_occurrence_unique(s, m, i1, i2);
        },
        (Some(o1), None) => {
            let i1 = choose|i: int| is_last_occurrence(s, m, i) && o1 == replace_at(s, m, rep, i);
            assert(occurs_at(s, m, i1));
        },
        (None, Some(o2)) => {
            let i2 = choose|i: int| is_last_occurrence(s, m, i) && o2 == replace_at(s, m, rep, i);
            assert(occurs_at(s, m, i2));
        },
        (None, None) => {},
    }
}

/// `s` with the last occurrence of `marker` replaced by `replacement`;
/// `None` exactly when `marker` does not occur in `s`.
pub fn replace_last(s: &str, marker: &str, replacement: &str) -> (r: Option<String>)
    ensures
        opt_str_view(r) == replace_last_spec(s@, marker@, replacement@),
{
    match find_last_occurrence(s, marker) {
        None => None,
        Some(i) => {
            proof {
                lemma_last_occurrence_correct(s@, marker@);
            }
            let n = s.unicode_len();
            let ml = marker.unicode_len();
            let prefix = s.substring_char(0, i);
            let suffix = s.substring_char(i + ml, n);
            let mut out = String::from_str(prefix);
            out.append(replacement);
            out.append(suffix);
            proof {
                assert(out@ =~= replace_at(s@, marker@, replacement@, i as int));
            }
            Some(out)
        },
    }
}

/// The candidate sibling-folder leaf name for a folder: the folder name is
/// lowercased and the last occurrence of the literal `marker` in it is
/// replaced by the lowercased `replacement`; absent when the marker does not
/// occur in the lowercased name.
pub fn derive_candidate_name(original_name: &str, marker: &str, replacement: &str) -> (r: Option<
    String,
>)
    ensures
        opt_str_view(r) == derived_candidate(original_name@, marker@, replacement@),
{
    let lowered = lowercase(original_name);
    let lowered_replacement = lowercase(replacement);
    replace_last(lowered.as_str(), marker, lowered_replacement.as_str())
}

/// Whether the file name `name` has extension `ext` (exact, case-sensitive).
pub fn has_extension(name: &str, ext: &str) -> (b: bool)
    ensures
        b == extension_is(name@, ext@),
{
    proof {
        reveal_strlit(".");
    }
    let n = name.unicode_len();
    match find_last_occurrence(name, ".") {
        None => {
            proof {
                lemma_last_occurrence_correct(name@, "."@);
                assert(!extension_is(name@, ext@)) by {
                    if extension_is(name@, ext@) {
                        let i = choose|i: int|
                            last_dot(name@, i) && 0 < i && ext@ == name@.subrange(
                                i + 1,
                                name@.len() as int,
                            );
                        lemma_dot_occurrence(name@, "."@, i);
                        assert(has_occurrence(name@, "."@));
                    }
                }
            }
            false
        },
        Some(d) => {
            proof {
                lemma_last_occurrence_correct(name@, "."@);
                lemma_dot_occurrence(name@, "."@, d as int);
                assert(last_dot(name@, d as int)) by {
                    assert forall|j: int| d < j < name@.len() implies name@[j] != '.' by {
                        lemma_dot_occurrence(name@, "."@, j);
                    }
                }
                assert forall|i: int| last_dot(name@, i) implies i == d by {
                    lemma_dot_occurrence(name@, "."@, i);
                    if i < d {
                        assert(name@[d as int] == '.');
                    } else if i > d {
                        assert(occurs_at(name@, "."@, i));
                    }
                }
            }
            if d == 0 {
                false
            } else {
                let el = ext.unicode_len();
                if n - d - 1 == el {
                    let b = match_at(name, ext, d + 1);
                    proof {
                        assert(name@.subrange(d + 1, d + 1 + ext@.len()) == name@.subrange(
                            d + 1,
                            name@.len() as int,
                        ));
                        if b {
                            assert(extension_is(name@, ext@)) by {
                                assert(last_dot(name@, d as int) && 0 < d && ext@ == name@.subrange(
                                    d + 1,
                                    name@.len() as int,
                                ));
                            }
                        } else {
                            if extension_is(name@, ext@) {
                                let i = choose|i: int|
                                    last_dot(name@, i) && 0 < i && ext@ == name@.subrange(
                                        i + 1,
                                        name@.len() as int,
                                    );
                            }
                        }
                    }
                    b
                } else {
                    proof {
                        if extension_is(name@, ext@) {
                            let i = choose|i: int|
                                last_dot(name@, i) && 0 < i && ext@ == name@.subrange(
                                    i + 1,
                                    name@.len() as int,
                                );
                            assert(name@.subrange(i + 1, name@.len() as int).len() == name@.len()
                                - i - 1);
                        }
                    }
                    false
                }
            }
        },
    }
}

/// A single dot occurs at `j` exactly where the character at `j` is a dot.
proof fn lemma_dot_occurrence(name: Seq<char>, dot: Seq<char>, j: int)
    requires
        dot.len() == 1,
        dot[0] == '.',
    ensures
        occurs_at(name, dot, j) <==> (0 <= j < name.len() && name[j] == '.'),
{
    if 0 <= j < name.len() && name[j] == '.' {
        assert(name.subrange(j, j + 1) =~= dot);
    }
    if occurs_at(name, dot, j) {
        assert(name.subrange(j, j + 1)[0] == name[j]);
    }
}

/// `parent` and `leaf` joined with a path separator.
pub fn join_path(parent: &str, leaf: &str) -> (r: String)
    ensures
        r@ == joined(parent@, leaf@),
{
    let mut out = String::from_str(parent);
    out.append("/");
    out.append(leaf);
    proof {
        assert(out@ =~= joined(parent@, leaf@));
    }
    out
}

} // verus!
