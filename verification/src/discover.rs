use crate::natural::{
    comparable, digit_run, law_natural_order_reverses, law_natural_order_transitive,
    alphanumeric, lexical_chars, lexical_form, natural_compare, natural_order, short_digit_runs,
    unicode_alphanumeric, NameOrder,
};
use vstd::prelude::*;

verus! {

/// The index of the last `.` in a file name, if it has one.
pub open spec fn last_dot(name: Seq<u8>) -> Option<int>
    decreases name.len(),
{
    if name.len() == 0 {
        None
    } else if name.last() == 0x2e {
        Some(name.len() - 1)
    } else {
        last_dot(name.drop_last())
    }
}

/// The extension of a file name: what follows its last `.`, unless the name
/// has no `.` or its only `.` is its first byte.
pub open spec fn extension(name: Seq<u8>) -> Option<Seq<u8>> {
    match last_dot(name) {
        None => None,
        Some(i) => if i == 0 {
            None
        } else {
            Some(name.subrange(i + 1, name.len() as int))
        },
    }
}

/// An ASCII byte with upper-case letters mapped to lower case.
pub open spec fn ascii_lower(b: u8) -> u8 {
    if 0x41 <= b && b <= 0x5a {
        (b + 32) as u8
    } else {
        b
    }
}

/// Equality of byte strings up to ASCII case.
pub open spec fn eq_ignore_ascii_case(a: Seq<u8>, b: Seq<u8>) -> bool {
    &&& a.len() == b.len()
    &&& forall|i: int| 0 <= i < a.len() ==> ascii_lower(#[trigger] a[i]) == ascii_lower(b[i])
}

/// Whether a file name ends in `.jpg` or `.jpeg`, in any case.
pub open spec fn is_jpeg_name(name: Seq<u8>) -> bool {
    match extension(name) {
        Some(ext) => eq_ignore_ascii_case(ext, seq![0x6au8, 0x70u8, 0x67u8])
            || eq_ignore_ascii_case(ext, seq![0x6au8, 0x70u8, 0x65u8, 0x67u8]),
        None => false,
    }
}

fn lower(b: u8) -> (l: u8)
    ensures
        l == ascii_lower(b),
{
    if 0x41 <= b && b <= 0x5a {
        b + 32
    } else {
        b
    }
}

/// Compares `a[from..]` with the lower-case ASCII word `word`, ignoring case.
fn tail_matches(a: &[u8], from: usize, word: &[u8]) -> (same: bool)
    requires
        from <= a@.len(),
        forall|i: int| 0 <= i < word@.len() ==> ascii_lower(#[trigger] word@[i]) == word@[i],
    ensures
        same == eq_ignore_ascii_case(a@.subrange(from as int, a@.len() as int), word@),
{
    let ghost tail = a@.subrange(from as int, a@.len() as int);
    if a.len() - from != word.len() {
        return false;
    }
    let mut i: usize = 0;
    while i < word.len()
        invariant
            from <= a@.len(),
            a@.len() - from == word@.len(),
            tail == a@.subrange(from as int, a@.len() as int),
            i <= word@.len(),
            forall|j: int| 0 <= j < word@.len() ==> ascii_lower(#[trigger] word@[j]) == word@[j],
            forall|j: int| 0 <= j < i ==> ascii_lower(#[trigger] tail[j]) == ascii_lower(word@[j]),
        decreases word.len() - i,
    {
        assert(from + i < a.len());
        if lower(a[from + i]) != word[i] {
            assert(tail[i as int] == a@[from + i]);
            return false;
        }
        assert(tail[i as int] == a@[from + i]);
        i = i + 1;
    }
    true
}

/// Whether the file name `name` (its bytes, as the platform encodes them)
/// has a `.jpg` or `.jpeg` extension, in any mix of case.
pub fn is_jpeg_file_name(name: &[u8]) -> (jpeg: bool)
    ensures
        jpeg == is_jpeg_name(name@),
{
    let mut end = name.len();
    assert(name@.subrange(0, end as int) =~= name@);
    while end > 0 && name[end - 1] != 0x2e
        invariant
            end <= name@.len(),
            last_dot(name@) == last_dot(name@.subrange(0, end as int)),
        decreases end,
    {
        proof {
            let s = name@.subrange(0, end as int);
            assert(s.drop_last() =~= name@.subrange(0, end - 1));
        }
        end = end - 1;
    }
    proof {
        let s = name@.subrange(0, end as int);
        if end > 0 {
            assert(s.last() == 0x2e);
        } else {
            assert(s.len() == 0);
        }
    }
    if end <= 1 {
        return false;
    }
    let jpg: [u8; 3] = [0x6a, 0x70, 0x67];
    let jpeg: [u8; 4] = [0x6a, 0x70, 0x65, 0x67];
    assert(jpg@ =~= seq![0x6au8, 0x70u8, 0x67u8]);
    assert(jpeg@ =~= seq![0x6au8, 0x70u8, 0x65u8, 0x67u8]);
    tail_matches(name, end, jpg.as_slice()) || tail_matches(name, end, jpeg.as_slice())
}

/// What a path given on the command line turned out to be, looked at without
/// following symbolic links.
#[derive(Clone, Copy, Debug, PartialEq, Eq, Structural)]
pub enum EntryKind {
    /// Nothing exists at the path.
    Missing,
    SymbolicLink,
    Directory,
    File,
    /// Something else: a socket, a device, a pipe.
    Other,
}

/// Why a path given on the command line is refused.
#[derive(Clone, Copy, Debug, PartialEq, Eq, Structural)]
pub enum DirectFileError {
    /// Symbolic links are not followed.
    SymbolicLink,
    /// Directories take `-r`.
    Directory,
    /// Nothing, or no regular file, is there.
    NotAFile,
    /// The file name does not end in `.jpg` or `.jpeg`.
    NotJpeg,
}

/// The verdict on a path given directly: the first refusal that applies, in
/// the order symbolic link, directory, not a file, not a JPEG name.
pub open spec fn direct_file_verdict(kind: EntryKind, name: Seq<u8>) -> Result<(), DirectFileError> {
    match kind {
        EntryKind::SymbolicLink => Err(DirectFileError::SymbolicLink),
        EntryKind::Directory => Err(DirectFileError::Directory),
        EntryKind::Missing | EntryKind::Other => Err(DirectFileError::NotAFile),
        EntryKind::File => if is_jpeg_name(name) {
            Ok(())
        } else {
            Err(DirectFileError::NotJpeg)
        },
    }
}

/// Accepts a path named on the command line only when it is a regular file,
/// reached without a symbolic link, whose name ends in `.jpg` or `.jpeg`.
pub fn check_direct_file(kind: EntryKind, name: &[u8]) -> (verdict: Result<(), DirectFileError>)
    ensures
        verdict == direct_file_verdict(kind, name@),
{
    match kind {
        EntryKind::SymbolicLink => Err(DirectFileError::SymbolicLink),
        EntryKind::Directory => Err(DirectFileError::Directory),
        EntryKind::Missing | EntryKind::Other => Err(DirectFileError::NotAFile),
        EntryKind::File => if is_jpeg_file_name(name) {
            Ok(())
        } else {
            Err(DirectFileError::NotJpeg)
        },
    }
}

/// Whether the entry a recursive search met is processed: a regular file
/// (links are not followed) with a JPEG name.
pub fn is_wanted_entry(kind: EntryKind, name: &[u8]) -> (wanted: bool)
    ensures
        wanted == (kind == EntryKind::File && is_jpeg_name(name@)),
{
    match kind {
        EntryKind::File => is_jpeg_file_name(name),
        _ => false,
    }
}

/// `b` is the ASCII letter `lower`, in lower or upper case.
pub open spec fn letter_any_case(b: u8, lower: u8) -> bool {
    b == lower || b + 32 == lower
}

/// `ext` spells `jpg` or `jpeg` in any mix of case.
pub open spec fn spells_jpeg_extension(ext: Seq<u8>) -> bool {
    ||| (ext.len() == 3 && letter_any_case(ext[0], 0x6a) && letter_any_case(ext[1], 0x70)
        && letter_any_case(ext[2], 0x67))
    ||| (ext.len() == 4 && letter_any_case(ext[0], 0x6a) && letter_any_case(ext[1], 0x70)
        && letter_any_case(ext[2], 0x65) && letter_any_case(ext[3], 0x67))
}

/// `upper` is `name` with some of its lower-case ASCII letters in upper case.
pub open spec fn recased(name: Seq<u8>, upper: Seq<u8>) -> bool {
    &&& name.len() == upper.len()
    &&& forall|i: int|
        0 <= i < name.len() ==> #[trigger] upper[i] == name[i] || (0x61 <= name[i] && name[i]
            <= 0x7a && upper[i] + 32 == name[i])
}

proof fn lemma_last_dot(name: Seq<u8>)
    ensures
        last_dot(name) matches Some(i) ==> 0 <= i < name.len() && name[i] == 0x2e && forall|j: int|
            i < j < name.len() ==> #[trigger] name[j] != 0x2e,
        last_dot(name) is None ==> forall|j: int| 0 <= j < name.len() ==> #[trigger] name[j] != 0x2e,
    decreases name.len(),
{
    if name.len() > 0 && name.last() != 0x2e {
        lemma_last_dot(name.drop_last());
        assert forall|j: int| 0 <= j < name.len() - 1 implies name[j] == name.drop_last()[j] by {}
    }
}

proof fn lemma_last_dot_is(name: Seq<u8>, i: int)
    requires
        0 <= i < name.len(),
        name[i] == 0x2e,
        forall|j: int| i < j < name.len() ==> #[trigger] name[j] != 0x2e,
    ensures
        last_dot(name) == Some(i),
    decreases name.len(),
{
    if i < name.len() - 1 {
        let d = name.drop_last();
        assert forall|j: int| i < j < d.len() implies #[trigger] d[j] != 0x2e by {
            assert(d[j] == name[j]);
        }
        lemma_last_dot_is(d, i);
    }
}

/// Every name made of a non-empty stem, a `.` and `jpg` or `jpeg` in any mix
/// of case is a JPEG name, and such a regular file given directly is accepted.
pub proof fn law_jpeg_extensions_are_accepted(stem: Seq<u8>, ext: Seq<u8>)
    requires
        stem.len() >= 1,
        spells_jpeg_extension(ext),
    ensures
        is_jpeg_name(stem + seq![0x2eu8] + ext),
        direct_file_verdict(EntryKind::File, stem + seq![0x2eu8] + ext) == Ok::<(), DirectFileError>(()),
{
    let name = stem + seq![0x2eu8] + ext;
    let i = stem.len() as int;
    assert(name[i] == 0x2e);
    assert forall|j: int| i < j < name.len() implies #[trigger] name[j] != 0x2e by {
        assert(name[j] == ext[j - i - 1]);
    }
    lemma_last_dot_is(name, i);
    assert(name.subrange(i + 1, name.len() as int) =~= ext);
}

/// A JPEG name is a non-empty stem, a `.` and `jpg` or `jpeg` in some mix of
/// case, with no `.` after it.
pub proof fn law_jpeg_names_end_in_jpeg(name: Seq<u8>)
    requires
        is_jpeg_name(name),
    ensures
        exists|i: int|
            1 <= i < name.len() && #[trigger] name[i] == 0x2e && spells_jpeg_extension(
                name.subrange(i + 1, name.len() as int),
            ),
{
    lemma_last_dot(name);
    let i = last_dot(name)->0;
    let ext = name.subrange(i + 1, name.len() as int);
    assert(name[i] == 0x2e);
    assert(spells_jpeg_extension(ext));
}

proof fn lemma_recased_last_dot(name: Seq<u8>, upper: Seq<u8>)
    requires
        recased(name, upper),
    ensures
        last_dot(name) == last_dot(upper),
    decreases name.len(),
{
    if name.len() > 0 {
        let n = name.len() - 1;
        assert(upper[n] == name[n] || (0x61 <= name[n] && name[n] <= 0x7a && upper[n] + 32 == name[n]));
        assert(recased(name.drop_last(), upper.drop_last())) by {
            assert forall|i: int| 0 <= i < name.len() - 1 implies #[trigger] upper.drop_last()[i]
                == name.drop_last()[i] || (0x61 <= name.drop_last()[i] && name.drop_last()[i] <= 0x7a
                && upper.drop_last()[i] + 32 == name.drop_last()[i]) by {
                assert(upper[i] == name[i] || (0x61 <= name[i] && name[i] <= 0x7a && upper[i] + 32
                    == name[i]));
            }
        }
        lemma_recased_last_dot(name.drop_last(), upper.drop_last());
    }
}

proof fn lemma_same_lowered(e1: Seq<u8>, e2: Seq<u8>, word: Seq<u8>)
    requires
        e1.len() == e2.len(),
        forall|k: int| 0 <= k < e1.len() ==> ascii_lower(#[trigger] e1[k]) == ascii_lower(e2[k]),
    ensures
        eq_ignore_ascii_case(e1, word) == eq_ignore_ascii_case(e2, word),
{
    if eq_ignore_ascii_case(e1, word) {
        assert forall|k: int| 0 <= k < e2.len() implies ascii_lower(#[trigger] e2[k]) == ascii_lower(
            word[k],
        ) by {
            assert(ascii_lower(e1[k]) == ascii_lower(e2[k]));
        }
    }
    if eq_ignore_ascii_case(e2, word) {
        assert forall|k: int| 0 <= k < e1.len() implies ascii_lower(#[trigger] e1[k]) == ascii_lower(
            word[k],
        ) by {
            assert(ascii_lower(e2[k]) == ascii_lower(word[k]));
        }
    }
}

/// Case does not matter: putting letters of a name in upper case changes
/// neither whether it is a JPEG name nor the verdict on a file given directly.
pub proof fn law_case_does_not_matter(name: Seq<u8>, upper: Seq<u8>, kind: EntryKind)
    requires
        recased(name, upper),
    ensures
        is_jpeg_name(name) == is_jpeg_name(upper),
        direct_file_verdict(kind, name) == direct_file_verdict(kind, upper),
{
    lemma_recased_last_dot(name, upper);
    lemma_last_dot(name);
    if let Some(i) = last_dot(name) {
        let e1 = name.subrange(i + 1, name.len() as int);
        let e2 = upper.subrange(i + 1, upper.len() as int);
        assert forall|k: int| 0 <= k < e1.len() implies ascii_lower(#[trigger] e1[k]) == ascii_lower(
            e2[k],
        ) by {
            assert(e1[k] == name[i + 1 + k]);
            assert(e2[k] == upper[i + 1 + k]);
            assert(upper[i + 1 + k] == name[i + 1 + k] || (0x61 <= name[i + 1 + k] && name[i + 1
                + k] <= 0x7a && upper[i + 1 + k] + 32 == name[i + 1 + k]));
        }
        let jpg = seq![0x6au8, 0x70u8, 0x67u8];
        let jpeg = seq![0x6au8, 0x70u8, 0x65u8, 0x67u8];
        lemma_same_lowered(e1, e2, jpg);
        lemma_same_lowered(e1, e2, jpeg);
    }
}

/// Only regular files are taken: a symbolic link, a directory or anything
/// that is not a regular file given directly is refused for what it is, and
/// a regular file only for its name.
pub proof fn law_only_regular_files(kind: EntryKind, name: Seq<u8>)
    ensures
        kind == EntryKind::SymbolicLink ==> direct_file_verdict(kind, name) == Err::<(), DirectFileError>(
            DirectFileError::SymbolicLink,
        ),
        kind == EntryKind::Directory ==> direct_file_verdict(kind, name) == Err::<(), DirectFileError>(
            DirectFileError::Directory,
        ),
        kind == EntryKind::Missing || kind == EntryKind::Other ==> direct_file_verdict(kind, name)
            == Err::<(), DirectFileError>(DirectFileError::NotAFile),
        kind == EntryKind::File && !is_jpeg_name(name) ==> direct_file_verdict(kind, name) == Err::<
            (),
            DirectFileError,
        >(DirectFileError::NotJpeg),
        direct_file_verdict(kind, name) is Ok <==> kind == EntryKind::File && is_jpeg_name(name),
{
}

/// Whether two byte strings are equal.
fn same_bytes(a: &[u8], b: &[u8]) -> (same: bool)
    ensures
        same == (a@ == b@),
{
    if a.len() != b.len() {
        return false;
    }
    let mut i: usize = 0;
    while i < a.len()
        invariant
            a@.len() == b@.len(),
            i <= a@.len(),
            forall|j: int| 0 <= j < i ==> a@[j] == b@[j],
        decreases a.len() - i,
    {
        if a[i] != b[i] {
            return false;
        }
        i = i + 1;
    }
    assert(a@ =~= b@);
    true
}

/// Whether the `i`th identity is the first of its value.
pub open spec fn is_first_occurrence(identities: Seq<Vec<u8>>, i: int) -> bool {
    forall|j: int| 0 <= j < i ==> (#[trigger] identities[j])@ != identities[i]@
}

/// Marks the first occurrence of each identity (a canonical path, as bytes),
/// so that a file named twice, or reached twice, is processed once, at its
/// first position.
pub fn first_occurrences(identities: &Vec<Vec<u8>>) -> (keep: Vec<bool>)
    ensures
        keep@.len() == identities@.len(),
        forall|i: int| 0 <= i < keep@.len() ==> #[trigger] keep@[i] == is_first_occurrence(identities@, i),
{
    let mut keep: Vec<bool> = Vec::new();
    let mut i: usize = 0;
    while i < identities.len()
        invariant
            i <= identities@.len(),
            keep@.len() == i,
            forall|k: int| 0 <= k < i ==> #[trigger] keep@[k] == is_first_occurrence(identities@, k),
        decreases identities.len() - i,
    {
        let mut first = true;
        let mut j: usize = 0;
        while j < i
            invariant
                i < identities@.len(),
                j <= i,
                first == (forall|k: int| 0 <= k < j ==> (#[trigger] identities@[k])@ != identities@[i as int]@),
            decreases i - j,
        {
            if same_bytes(identities[j].as_slice(), identities[i].as_slice()) {
                first = false;
            }
            j = j + 1;
        }
        keep.push(first);
        i = i + 1;
    }
    keep
}

/// A file named or reached a second time is not processed again: a position
/// whose identity occurred before it is never a first occurrence, so the
/// positions kept hold pairwise different identities.
pub proof fn law_repeats_are_dropped(identities: Seq<Vec<u8>>, i: int, j: int)
    requires
        0 <= i < j < identities.len(),
    ensures
        identities[i]@ == identities[j]@ ==> !is_first_occurrence(identities, j),
        is_first_occurrence(identities, i) && is_first_occurrence(identities, j)
            ==> identities[i]@ != identities[j]@,
{
    if identities[i]@ == identities[j]@ {
        assert((#[trigger] identities[i])@ == identities[j]@);
    }
}

/// Dropping repeated identities loses no file: every identity is kept at the
/// first position where it occurs, at or before any position where it occurs.
pub proof fn law_every_identity_is_kept(identities: Seq<Vec<u8>>, i: int)
    requires
        0 <= i < identities.len(),
    ensures
        exists|j: int|
            0 <= j <= i && identities[j]@ == identities[i]@ && #[trigger] is_first_occurrence(
                identities,
                j,
            ),
    decreases i,
{
    if is_first_occurrence(identities, i) {
        assert(identities[i]@ == identities[i]@);
    } else {
        let k = choose|k: int| 0 <= k < i && (#[trigger] identities[k])@ == identities[i]@;
        law_every_identity_is_kept(identities, k);
    }
}

/// Whether a sequence of characters has no run of twenty digits or more.
fn has_short_digit_runs(s: &Vec<char>) -> (short: bool)
    ensures
        short == short_digit_runs(s@),
{
    let len = s.len();
    let mut run: usize = 0;
    let mut k: usize = 0;
    while k < len
        invariant
            len == s@.len(),
            k <= len,
            run == digit_run(s@, k as int),
            forall|m: int| 0 <= m <= k ==> #[trigger] digit_run(s@, m) < 20,
        decreases len - k,
    {
        let c = s[k];
        if '0' <= c && c <= '9' {
            run = run + 1;
            if run >= 20 {
                assert(digit_run(s@, k + 1) >= 20);
                return false;
            }
        } else {
            run = 0;
        }
        k = k + 1;
        assert(run == digit_run(s@, k as int));
    }
    true
}

/// Reports whether `name`, once transliterated, has no run of twenty digits
/// or more; such a name can be compared naturally with any other.
pub fn is_natural_safe(name: &str) -> (safe: bool)
    ensures
        safe == short_digit_runs(lexical_form(name@)),
{
    let form = lexical_chars(name);
    has_short_digit_runs(&form)
}

/// `order` lists each index below `n` exactly once.
pub open spec fn is_index_permutation(order: Seq<usize>, n: int) -> bool {
    &&& order.len() == n
    &&& forall|k: int| 0 <= k < order.len() ==> #[trigger] order[k] < n
    &&& forall|k1: int, k2: int|
        0 <= k1 < order.len() && 0 <= k2 < order.len() && k1 != k2 ==> #[trigger] order[k1]
            != #[trigger] order[k2]
}

/// Every two names of the list can be compared naturally.
pub open spec fn pairwise_comparable(names: Seq<String>) -> bool {
    forall|i: int, j: int|
        0 <= i < names.len() && 0 <= j < names.len() && i != j ==> comparable(
            #[trigger] names[i]@,
            #[trigger] names[j]@,
        )
}

/// The names taken in `order` are in natural order, all pairs of them, and
/// equal names keep the order in which they were given.
pub open spec fn naturally_sorted(names: Seq<String>, order: Seq<usize>) -> bool {
    forall|k1: int, k2: int|
        0 <= k1 < k2 < order.len() ==> {
            let o = natural_compare(
                names[#[trigger] order[k1] as int]@,
                names[#[trigger] order[k2] as int]@,
            );
            &&& o != NameOrder::Greater
            &&& o == NameOrder::Equal ==> order[k1] < order[k2]
        }
}

proof fn lemma_insert_permutation(old_order: Seq<usize>, j: int, i: usize)
    requires
        is_index_permutation(old_order, i as int),
        0 <= j <= old_order.len(),
    ensures
        is_index_permutation(old_order.insert(j, i), i + 1),
{
    let new_order = old_order.insert(j, i);
    assert forall|k: int| 0 <= k < new_order.len() implies #[trigger] new_order[k] < i + 1 by {
        if k < j {
            assert(new_order[k] == old_order[k]);
        } else if k > j {
            assert(new_order[k] == old_order[k - 1]);
        }
    }
    assert forall|k1: int, k2: int|
        0 <= k1 < new_order.len() && 0 <= k2 < new_order.len() && k1 != k2 implies #[trigger] new_order[k1]
            != #[trigger] new_order[k2] by {
        let a = if k1 < j { k1 } else { k1 - 1 };
        let b = if k2 < j { k2 } else { k2 - 1 };
        if k1 != j && k2 != j {
            assert(new_order[k1] == old_order[a]);
            assert(new_order[k2] == old_order[b]);
        } else if k1 == j {
            assert(new_order[k2] == old_order[b]);
        } else {
            assert(new_order[k1] == old_order[a]);
        }
    }
}

/// Inserting name `i` after the names not ordered after it, and before the
/// names ordered after it, keeps the list sorted.
proof fn lemma_insert_in_place(names: Seq<String>, old_order: Seq<usize>, j: int, i: usize)
    requires
        i < names.len(),
        is_index_permutation(old_order, i as int),
        naturally_sorted(names, old_order),
        0 <= j <= old_order.len(),
        forall|k: int|
            j <= k < old_order.len() ==> natural_compare(
                names[#[trigger] old_order[k] as int]@,
                names[i as int]@,
            ) == NameOrder::Greater,
        j > 0 ==> natural_compare(names[old_order[j - 1] as int]@, names[i as int]@)
            != NameOrder::Greater,
    ensures
        is_index_permutation(old_order.insert(j, i), i + 1),
        naturally_sorted(names, old_order.insert(j, i)),
{
    lemma_insert_permutation(old_order, j, i);
    let new_order = old_order.insert(j, i);
    let x = names[i as int]@;
    assert forall|k1: int, k2: int| 0 <= k1 < k2 < new_order.len() implies {
        let o = natural_compare(
            names[#[trigger] new_order[k1] as int]@,
            names[#[trigger] new_order[k2] as int]@,
        );
        &&& o != NameOrder::Greater
        &&& o == NameOrder::Equal ==> new_order[k1] < new_order[k2]
    } by {
        if k2 < j {
            assert(new_order[k1] == old_order[k1]);
            assert(new_order[k2] == old_order[k2]);
        } else if k2 == j {
            let y = names[old_order[k1] as int]@;
            assert(new_order[k1] == old_order[k1]);
            assert(old_order[k1] < i);
            if k1 < j - 1 {
                let z = names[old_order[j - 1] as int]@;
                assert(natural_compare(y, z) != NameOrder::Greater);
                law_natural_order_transitive(y, z, x);
            }
        } else if k1 == j {
            let y = names[old_order[k2 - 1] as int]@;
            assert(new_order[k2] == old_order[k2 - 1]);
            assert(natural_compare(y, x) == NameOrder::Greater);
            law_natural_order_reverses(y, x);
        } else if k1 < j {
            assert(new_order[k1] == old_order[k1]);
            assert(new_order[k2] == old_order[k2 - 1]);
        } else {
            assert(new_order[k1] == old_order[k1 - 1]);
            assert(new_order[k2] == old_order[k2 - 1]);
        }
    }
}

/// Sorts the indices of `names` by natural order, stably: an insertion sort
/// that moves each name left past the names ordered after it.
pub fn natural_sort_order(names: &Vec<String>) -> (order: Vec<usize>)
    requires
        pairwise_comparable(names@),
    ensures
        is_index_permutation(order@, names@.len() as int),
        naturally_sorted(names@, order@),
{
    let n = names.len();
    let mut order: Vec<usize> = Vec::new();
    let mut i: usize = 0;
    while i < n
        invariant
            n == names@.len(),
            pairwise_comparable(names@),
            i <= n,
            is_index_permutation(order@, i as int),
            naturally_sorted(names@, order@),
        decreases n - i,
    {
        let ghost old_order = order@;
        let ghost x = names@[i as int]@;
        let mut j = order.len();
        let mut stop = false;
        while j > 0 && !stop
            invariant
                n == names@.len(),
                pairwise_comparable(names@),
                i < n,
                x == names@[i as int]@,
                order@ == old_order,
                is_index_permutation(order@, i as int),
                j <= order@.len(),
                forall|k: int|
                    j <= k < order@.len() ==> natural_compare(
                        names@[#[trigger] order@[k] as int]@,
                        x,
                    ) == NameOrder::Greater,
                stop ==> j > 0 && natural_compare(names@[order@[j - 1] as int]@, x)
                    != NameOrder::Greater,
            decreases j + j + (if stop { 0int } else { 1int }),
        {
            let before = order[j - 1];
            assert(before < i);
            let o = natural_order(names[before].as_str(), names[i].as_str());
            assert(alphanumeric() =~= (|c: char| unicode_alphanumeric(c)));
            match o {
                NameOrder::Greater => {
                    j = j - 1;
                },
                _ => {
                    stop = true;
                },
            }
        }
        proof {
            lemma_insert_in_place(names@, old_order, j as int, i);
        }
        order.insert(j, i);
        i = i + 1;
    }
    order
}

/// Orders `names` naturally when every two of them can be compared, that is
/// when at most one of them has a digit run of twenty or more once
/// transliterated; otherwise gives `None` and leaves the ordering to the caller.
pub fn sort_names_naturally(names: &Vec<String>) -> (order: Option<Vec<usize>>)
    ensures
        order is Some <==> pairwise_comparable(names@),
        order matches Some(o) ==> is_index_permutation(o@, names@.len() as int)
            && naturally_sorted(names@, o@),
{
    let mut unsafe_name: Option<usize> = None;
    let mut i: usize = 0;
    while i < names.len()
        invariant
            i <= names@.len(),
            unsafe_name matches Some(u) ==> u < i && !short_digit_runs(
                lexical_form(names@[u as int]@),
            ),
            forall|x: int|
                0 <= x < i && unsafe_name != Some(x as usize) ==> short_digit_runs(
                    lexical_form(#[trigger] names@[x]@),
                ),
        decreases names.len() - i,
    {
        if !is_natural_safe(names[i].as_str()) {
            if let Some(u) = unsafe_name {
                assert(!comparable(names@[u as int]@, names@[i as int]@));
                return None;
            }
            unsafe_name = Some(i);
        }
        i = i + 1;
    }
    assert(pairwise_comparable(names@)) by {
        assert forall|a: int, b: int|
            0 <= a < names@.len() && 0 <= b < names@.len() && a != b implies comparable(
            #[trigger] names@[a]@,
            #[trigger] names@[b]@,
        ) by {
            if unsafe_name != Some(a as usize) {
                assert(short_digit_runs(lexical_form(names@[a]@)));
            } else {
                assert(short_digit_runs(lexical_form(names@[b]@)));
            }
        }
    }
    Some(natural_sort_order(names))
}

} // verus!
