//! Validity rules for hierarchical signal names.
//!
//! A signal name is a `/`-separated path, like a Unix path: it must start
//! with the separator, must not contain two consecutive separators, and may
//! otherwise use only ASCII letters, digits and underscores. Two names
//! conflict when one denotes an ancestor (path prefix) of the other, which
//! would make the same path node both an internal grouping node and a leaf
//! signal.

use vstd::prelude::*;
use vstd::string::StrSliceExecFns;

verus! {

/// Characters a signal name may contain: the separator, underscores,
/// ASCII letters and ASCII digits. The alphabet is deliberately fixed to
/// ASCII so that the rule can be stated exactly and holds on every machine;
/// names using letters outside it are rejected as ill-formed.
pub open spec fn is_name_char(c: char) -> bool {
    ||| c == '/'
    ||| c == '_'
    ||| 'a' <= c && c <= 'z'
    ||| 'A' <= c && c <= 'Z'
    ||| '0' <= c && c <= '9'
}

pub open spec fn starts_with_separator(s: Seq<char>) -> bool {
    s.len() > 0 && s[0] == '/'
}

pub open spec fn has_consecutive_separators(s: Seq<char>) -> bool {
    exists|i: int| 0 <= i && i + 1 < s.len() && s[i] == '/' && #[trigger] s[i + 1] == '/'
}

pub open spec fn all_chars_allowed(s: Seq<char>) -> bool {
    forall|i: int| 0 <= i < s.len() ==> is_name_char(#[trigger] s[i])
}

/// The three syntactic rules a name must meet on its own, before it is
/// checked against the names already registered.
pub open spec fn name_well_formed(s: Seq<char>) -> bool {
    starts_with_separator(s) && !has_consecutive_separators(s) && all_chars_allowed(s)
}

/// `a` names an ancestor of `b` in the path hierarchy (or the same path):
/// `a` is a prefix of `b` that ends on a path-segment boundary.
pub open spec fn is_path_prefix(a: Seq<char>, b: Seq<char>) -> bool {
    &&& a.len() <= b.len()
    &&& forall|i: int| 0 <= i < a.len() ==> a[i] == #[trigger] b[i]
    &&& (a.len() == b.len() || b[a.len() as int] == '/')
}

/// Two names conflict when either is an ancestor of the other (or they are
/// equal); registering both would break the tree shape of the name space.
pub open spec fn names_conflict(a: Seq<char>, b: Seq<char>) -> bool {
    is_path_prefix(a, b) || is_path_prefix(b, a)
}

/// The specific rule a rejected name violates.
#[derive(Clone, Copy, Debug, PartialEq, Eq, Structural)]
pub enum PlotSignalNameError {
    DoesNotStartWithSeparator,
    ConsecutiveSeparators,
    IllegalCharacter,
    AncestorOrDescendantConflict,
}

fn name_starts_with_separator(name: &str) -> (r: bool)
    ensures
        r == starts_with_separator(name@),
{
    if name.unicode_len() == 0 {
        false
    } else {
        name.get_char(0) == '/'
    }
}

fn name_has_consecutive_separators(name: &str) -> (r: bool)
    ensures
        r == has_consecutive_separators(name@),
{
    let n = name.unicode_len();
    if n == 0 {
        return false;
    }
    let mut i: usize = 0;
    while i + 1 < n
        invariant
            n == name@.len(),
            i < n,
            forall|j: int| 0 <= j && j + 1 < i + 1 ==> !(name@[j] == '/' && #[trigger] name@[j + 1]
                == '/'),
        decreases n - i,
    {
        if name.get_char(i) == '/' && name.get_char(i + 1) == '/' {
            return true;
        }
        i = i + 1;
    }
    false
}

fn is_name_char_exec(c: char) -> (r: bool)
    ensures
        r == is_name_char(c),
{
    c == '/' || c == '_' || ('a' <= c && c <= 'z') || ('A' <= c && c <= 'Z') || ('0' <= c && c
        <= '9')
}

fn name_chars_allowed(name: &str) -> (r: bool)
    ensures
        r == all_chars_allowed(name@),
{
    let n = name.unicode_len();
    let mut i: usize = 0;
    while i < n
        invariant
            n == name@.len(),
            i <= n,
            forall|j: int| 0 <= j < i ==> is_name_char(#[trigger] name@[j]),
        decreases n - i,
    {
        if !is_name_char_exec(name.get_char(i)) {
            return false;
        }
        i = i + 1;
    }
    true
}

/// Checks the three syntactic rules, reporting the first one violated, in
/// the order: leading separator, doubled separator, character set.
pub fn check_name_format(name: &str) -> (r: Result<(), PlotSignalNameError>)
    ensures
        r is Ok <==> name_well_formed(name@),
        !starts_with_separator(name@) ==> r == Result::<(), PlotSignalNameError>::Err(
            PlotSignalNameError::DoesNotStartWithSeparator,
        ),
        starts_with_separator(name@) && has_consecutive_separators(name@) ==> r == Result::<
            (),
            PlotSignalNameError,
        >::Err(PlotSignalNameError::ConsecutiveSeparators),
        starts_with_separator(name@) && !has_consecutive_separators(name@) && !all_chars_allowed(
            name@,
        ) ==> r == Result::<(), PlotSignalNameError>::Err(PlotSignalNameError::IllegalCharacter),
{
    if !name_starts_with_separator(name) {
        Err(PlotSignalNameError::DoesNotStartWithSeparator)
    } else if name_has_consecutive_separators(name) {
        Err(PlotSignalNameError::ConsecutiveSeparators)
    } else if !name_chars_allowed(name) {
        Err(PlotSignalNameError::IllegalCharacter)
    } else {
        Ok(())
    }
}

/// Does `a` name an ancestor of `b` (or the same path)?
pub fn check_path_prefix(a: &str, b: &str) -> (r: bool)
    ensures
        r == is_path_prefix(a@, b@),
{
    let na = a.unicode_len();
    let nb = b.unicode_len();
    if na > nb {
        return false;
    }
    let mut i: usize = 0;
    while i < na
        invariant
            na == a@.len(),
            nb == b@.len(),
            na <= nb,
            i <= na,
            forall|j: int| 0 <= j < i ==> a@[j] == #[trigger] b@[j],
        decreases na - i,
    {
        if a.get_char(i) != b.get_char(i) {
            return false;
        }
        i = i + 1;
    }
    na == nb || b.get_char(na) == '/'
}

/// Do the two names conflict (one an ancestor of the other, or equal)?
pub fn check_names_conflict(a: &str, b: &str) -> (r: bool)
    ensures
        r == names_conflict(a@, b@),
{
    check_path_prefix(a, b) || check_path_prefix(b, a)
}

/// The segments of a path, glued back together with the separator between
/// them: `join_with` of a name's separator-free segments is the name itself,
/// which pins the segmentation down uniquely.
pub open spec fn join_with(segs: Seq<Seq<char>>, sep: char) -> Seq<char>
    decreases segs.len(),
{
    if segs.len() == 0 {
        Seq::empty()
    } else if segs.len() == 1 {
        segs[0]
    } else {
        join_with(segs.drop_last(), sep) + seq![sep] + segs.last()
    }
}

/// A sequence of path segments: none of them contains the separator.
pub open spec fn all_separator_free(segs: Seq<Seq<char>>, sep: char) -> bool {
    forall|j: int, c: int|
        0 <= j < segs.len() && 0 <= c < segs[j].len() ==> #[trigger] segs[j][c] != sep
}

/// Splits a string at every `/`, keeping empty segments, so a name starting
/// with the separator yields an empty first segment.
pub fn split_separators(name: &str) -> (r: Vec<&str>)
    ensures
        r@.len() >= 1,
        join_with(r@.map_values(|t: &str| t@), '/') == name@,
        all_separator_free(r@.map_values(|t: &str| t@), '/'),
{
    let n = name.unicode_len();
    let mut r: Vec<&str> = Vec::new();
    let mut seg_start: usize = 0;
    let mut i: usize = 0;
    while i < n
        invariant
            n == name@.len(),
            seg_start <= i <= n,
            r@.len() == 0 ==> seg_start == 0,
            r@.len() > 0 ==> 1 <= seg_start <= i && name@[seg_start - 1] == '/',
            join_with(r@.map_values(|t: &str| t@), '/') == (if r@.len() == 0 {
                Seq::<char>::empty()
            } else {
                name@.subrange(0, seg_start - 1)
            }),
            all_separator_free(r@.map_values(|t: &str| t@), '/'),
            forall|c: int| seg_start <= c < i ==> name@[c] != '/',
        decreases n - i,
    {
        if name.get_char(i) == '/' {
            let ghost old_segs = r@.map_values(|t: &str| t@);
            let seg = name.substring_char(seg_start, i);
            r.push(seg);
            proof {
                let segs = r@.map_values(|t: &str| t@);
                assert(segs =~= old_segs.push(seg@));
                if old_segs.len() == 0 {
                    assert(join_with(segs, '/') == seg@);
                    assert(seg@ =~= name@.subrange(0, i as int));
                } else {
                    assert(segs.drop_last() =~= old_segs);
                    assert(join_with(segs, '/') == join_with(old_segs, '/') + seq!['/'] + seg@);
                    assert(join_with(old_segs, '/') + seq!['/'] + seg@ =~= name@.subrange(
                        0,
                        i as int,
                    ));
                }
            }
            seg_start = i + 1;
        }
        i = i + 1;
    }
    let ghost old_segs = r@.map_values(|t: &str| t@);
    let seg = name.substring_char(seg_start, n);
    r.push(seg);
    proof {
        let segs = r@.map_values(|t: &str| t@);
        assert(segs =~= old_segs.push(seg@));
        if old_segs.len() == 0 {
            assert(join_with(segs, '/') == seg@);
            assert(seg@ =~= name@);
        } else {
            assert(segs.drop_last() =~= old_segs);
            assert(join_with(segs, '/') == join_with(old_segs, '/') + seq!['/'] + seg@);
            assert(join_with(old_segs, '/') + seq!['/'] + seg@ =~= name@);
        }
    }
    r
}

/// Are the two strings the same sequence of characters?
pub fn str_eq(a: &str, b: &str) -> (r: bool)
    ensures
        r == (a@ == b@),
{
    let na = a.unicode_len();
    let nb = b.unicode_len();
    if na != nb {
        return false;
    }
    let mut i: usize = 0;
    while i < na
        invariant
            na == a@.len(),
            na == b@.len(),
            i <= na,
            forall|j: int| 0 <= j < i ==> a@[j] == #[trigger] b@[j],
        decreases na - i,
    {
        if a.get_char(i) != b.get_char(i) {
            return false;
        }
        i = i + 1;
    }
    proof {
        assert(a@ =~= b@);
    }
    true
}

/// Strict lexicographic order on character sequences: either the first
/// differing position decides, or a proper prefix precedes its extension.
pub open spec fn lex_lt(a: Seq<char>, b: Seq<char>) -> bool {
    ||| (exists|i: int|
        0 <= i < a.len() && i < b.len() && (forall|j: int| 0 <= j < i ==> a[j] == b[j]) && (
        #[trigger] a[i]) < b[i])
    ||| (a.len() < b.len() && (forall|j: int| 0 <= j < a.len() ==> a[j] == #[trigger] b[j]))
}

/// The length of the longest common prefix of two sequences.
pub open spec fn common_prefix_len(a: Seq<char>, b: Seq<char>) -> int
    decreases a.len(),
{
    if a.len() == 0 || b.len() == 0 || a[0] != b[0] {
        0
    } else {
        1 + common_prefix_len(a.drop_first(), b.drop_first())
    }
}

proof fn lemma_common_prefix(a: Seq<char>, b: Seq<char>)
    ensures
        0 <= common_prefix_len(a, b) <= a.len(),
        common_prefix_len(a, b) <= b.len(),
        forall|j: int| 0 <= j < common_prefix_len(a, b) ==> a[j] == #[trigger] b[j],
        common_prefix_len(a, b) < a.len() && common_prefix_len(a, b) < b.len() ==> a[
            common_prefix_len(a, b)
        ] != b[common_prefix_len(a, b)],
    decreases a.len(),
{
    if a.len() == 0 || b.len() == 0 || a[0] != b[0] {
    } else {
        let a1 = a.drop_first();
        let b1 = b.drop_first();
        lemma_common_prefix(a1, b1);
        let k = common_prefix_len(a, b);
        assert(forall|j: int| 0 <= j < a1.len() ==> a1[j] == #[trigger] a[j + 1]);
        assert(forall|j: int| 0 <= j < b1.len() ==> b1[j] == #[trigger] b[j + 1]);
        assert forall|j: int| 0 <= j < k implies a[j] == #[trigger] b[j] by {
            if j > 0 {
                assert(a1[j - 1] == b1[j - 1]);
            }
        }
        if k < a.len() && k < b.len() {
            assert(a1[k - 1] != b1[k - 1]);
        }
    }
}

/// Lexicographic order is total: two unordered sequences are equal.
pub proof fn lemma_lex_total(a: Seq<char>, b: Seq<char>)
    requires
        !lex_lt(a, b),
        !lex_lt(b, a),
    ensures
        a == b,
{
    lemma_common_prefix(a, b);
    let k = common_prefix_len(a, b);
    if k == a.len() && k == b.len() {
        assert(a =~= b);
    } else if k == a.len() {
        assert(lex_lt(a, b));
    } else if k == b.len() {
        assert(lex_lt(b, a)) by {
            assert(forall|j: int| 0 <= j < b.len() ==> b[j] == #[trigger] a[j]);
        }
    } else {
        if a[k] < b[k] {
            assert(lex_lt(a, b));
        } else {
            assert(lex_lt(b, a)) by {
                assert(forall|j: int| 0 <= j < k ==> b[j] == #[trigger] a[j]);
            }
        }
    }
}

/// Lexicographic order is transitive.
pub proof fn lemma_lex_transitive(a: Seq<char>, b: Seq<char>, c: Seq<char>)
    requires
        lex_lt(a, b),
        lex_lt(b, c),
    ensures
        lex_lt(a, c),
{
    if exists|i: int|
        0 <= i < a.len() && i < b.len() && (forall|j: int| 0 <= j < i ==> a[j] == b[j]) && (
        #[trigger] a[i]) < b[i] {
        let iab = choose|i: int|
            0 <= i < a.len() && i < b.len() && (forall|j: int| 0 <= j < i ==> a[j] == b[j]) && (
            #[trigger] a[i]) < b[i];
        if exists|i: int|
            0 <= i < b.len() && i < c.len() && (forall|j: int| 0 <= j < i ==> b[j] == c[j]) && (
            #[trigger] b[i]) < c[i] {
            let ibc = choose|i: int|
                0 <= i < b.len() && i < c.len() && (forall|j: int| 0 <= j < i ==> b[j] == c[j]) && (
                #[trigger] b[i]) < c[i];
            let i = if iab <= ibc {
                iab
            } else {
                ibc
            };
            assert(0 <= i < a.len() && i < c.len() && (forall|j: int|
                0 <= j < i ==> a[j] == c[j]) && a[i] < c[i]);
        } else {
            // b is a proper prefix of c.
            assert(0 <= iab < a.len() && iab < c.len() && (forall|j: int|
                0 <= j < iab ==> a[j] == c[j]) && a[iab] < c[iab]);
        }
    } else {
        // a is a proper prefix of b.
        if exists|i: int|
            0 <= i < b.len() && i < c.len() && (forall|j: int| 0 <= j < i ==> b[j] == c[j]) && (
            #[trigger] b[i]) < c[i] {
            let ibc = choose|i: int|
                0 <= i < b.len() && i < c.len() && (forall|j: int| 0 <= j < i ==> b[j] == c[j]) && (
                #[trigger] b[i]) < c[i];
            if ibc < a.len() {
                assert(0 <= ibc < a.len() && ibc < c.len() && (forall|j: int|
                    0 <= j < ibc ==> a[j] == c[j]) && a[ibc] < c[ibc]);
            } else {
                assert(a.len() < c.len() && (forall|j: int| 0 <= j < a.len() ==> a[j] == c[j]));
            }
        } else {
            assert(a.len() < c.len() && (forall|j: int| 0 <= j < a.len() ==> a[j] == c[j]));
        }
    }
}

/// Is `a` lexicographically before `b`?
pub fn str_lt(a: &str, b: &str) -> (r: bool)
    ensures
        r == lex_lt(a@, b@),
{
    let na = a.unicode_len();
    let nb = b.unicode_len();
    let mut i: usize = 0;
    while i < na && i < nb
        invariant
            na == a@.len(),
            nb == b@.len(),
            i <= na,
            i <= nb,
            forall|j: int| 0 <= j < i ==> a@[j] == #[trigger] b@[j],
        decreases na - i,
    {
        let ca = a.get_char(i);
        let cb = b.get_char(i);
        if ca != cb {
            proof {
                if ca < cb {
                    assert(lex_lt(a@, b@));
                } else {
                    assert(!lex_lt(a@, b@)) by {
                        if exists|k: int|
                            0 <= k < a@.len() && k < b@.len() && (forall|j: int|
                                0 <= j < k ==> a@[j] == b@[j]) && (#[trigger] a@[k]) < b@[k] {
                            let k = choose|k: int|
                                0 <= k < a@.len() && k < b@.len() && (forall|j: int|
                                    0 <= j < k ==> a@[j] == b@[j]) && (#[trigger] a@[k]) < b@[k];
                            if k < i {
                                assert(a@[k] == b@[k]);
                            } else if k == i {
                                assert(a@[k] < b@[k]);
                            } else {
                                assert(a@[i as int] == b@[i as int]);
                            }
                        }
                        if a@.len() < b@.len() && (forall|j: int|
                            0 <= j < a@.len() ==> a@[j] == b@[j]) {
                            assert(a@[i as int] == b@[i as int]);
                        }
                    }
                }
            }
            return ca < cb;
        }
        i = i + 1;
    }
    proof {
        if na < nb {
            assert(lex_lt(a@, b@));
        } else {
            assert(!lex_lt(a@, b@)) by {
                if exists|k: int|
                    0 <= k < a@.len() && k < b@.len() && (forall|j: int|
                        0 <= j < k ==> a@[j] == b@[j]) && (#[trigger] a@[k]) < b@[k] {
                    let k = choose|k: int|
                        0 <= k < a@.len() && k < b@.len() && (forall|j: int|
                            0 <= j < k ==> a@[j] == b@[j]) && (#[trigger] a@[k]) < b@[k];
                    assert(a@[k] == b@[k]);
                }
            }
        }
    }
    na < nb
}

/// A path-segment chain read back as a full signal name: the leading
/// separator followed by the separator-joined segments.
pub open spec fn chain_to_name(segs: Seq<Seq<char>>) -> Seq<char> {
    seq!['/'] + join_with(segs, '/')
}

/// Splitting off an empty leading segment is the same as prepending the
/// separator.
pub proof fn lemma_join_leading_empty(segs: Seq<Seq<char>>, sep: char)
    requires
        segs.len() >= 1,
    ensures
        join_with(seq![Seq::<char>::empty()] + segs, sep) =~= seq![sep] + join_with(segs, sep),
    decreases segs.len(),
{
    let whole = seq![Seq::<char>::empty()] + segs;
    if segs.len() == 1 {
        assert(whole.drop_last() =~= seq![Seq::<char>::empty()]);
        assert(whole.last() == segs[0]);
        assert(join_with(whole, sep) == join_with(seq![Seq::<char>::empty()], sep) + seq![sep]
            + segs[0]);
        assert(join_with(seq![Seq::<char>::empty()], sep) == Seq::<char>::empty());
        assert(join_with(segs, sep) == segs[0]);
    } else {
        lemma_join_leading_empty(segs.drop_last(), sep);
        assert(whole.drop_last() =~= seq![Seq::<char>::empty()] + segs.drop_last());
        assert(whole.last() == segs.last());
        assert(join_with(whole, sep) == join_with(whole.drop_last(), sep) + seq![sep]
            + segs.last());
        assert(join_with(segs, sep) == join_with(segs.drop_last(), sep) + seq![sep] + segs.last());
    }
}

/// Being a path-ancestor is transitive.
pub proof fn lemma_path_prefix_transitive(a: Seq<char>, b: Seq<char>, c: Seq<char>)
    requires
        is_path_prefix(a, b),
        is_path_prefix(b, c),
    ensures
        is_path_prefix(a, c),
{
}

/// A shorter chain of the same segments names a path-ancestor.
pub proof fn lemma_chain_take_prefix(segs: Seq<Seq<char>>, k: int)
    requires
        1 <= k <= segs.len(),
    ensures
        is_path_prefix(chain_to_name(segs.take(k)), chain_to_name(segs)),
    decreases segs.len() - k,
{
    if k == segs.len() {
        assert(segs.take(k) =~= segs);
        assert(is_path_prefix(chain_to_name(segs), chain_to_name(segs)));
    } else {
        lemma_chain_take_prefix(segs.drop_last(), k);
        assert(segs.drop_last().take(k) =~= segs.take(k));
        assert(join_with(segs, '/') == join_with(segs.drop_last(), '/') + seq!['/']
            + segs.last());
        assert(is_path_prefix(chain_to_name(segs.drop_last()), chain_to_name(segs))) by {
            assert(chain_to_name(segs) =~= chain_to_name(segs.drop_last()) + seq!['/']
                + segs.last());
        }
        lemma_path_prefix_transitive(
            chain_to_name(segs.take(k)),
            chain_to_name(segs.drop_last()),
            chain_to_name(segs),
        );
    }
}

/// Relies on `String::push_str`: it appends the piece's characters to the
/// end of the string.
#[verifier::external_body]
pub(crate) fn push_str_piece(s: &mut String, piece: &str)
    ensures
        final(s)@ == old(s)@ + piece@,
{
    s.push_str(piece)
}

} // verus!
