//! Image metadata records: the chronological sort used to order extracted
//! records, and the check for supported image file extensions.

#![verifier::loop_isolation(false)]

use vstd::prelude::*;
use vstd::utf8::encode_utf8;

verus! {

broadcast use vstd::seq_lib::group_seq_properties, vstd::seq_lib::to_multiset_insert, vstd::multiset::group_multiset_axioms;

/// Metadata extracted from one image file.
pub struct ImageData {
    pub filename: String,
    pub date_created: Option<String>,
    pub gps_coordinates: Option<String>,
}

/// Byte-wise lexicographic "less than or equal" on byte strings.  This is the
/// order in which `str` comparison sorts strings.
pub open spec fn bytes_le(a: Seq<u8>, b: Seq<u8>) -> bool
    decreases a.len(),
{
    if a.len() == 0 {
        true
    } else if b.len() == 0 {
        false
    } else if a[0] != b[0] {
        a[0] < b[0]
    } else {
        bytes_le(a.skip(1), b.skip(1))
    }
}

/// Chronological order of records: records without a creation date come
/// first, dated records are ordered by their date strings (whose
/// `YYYY:MM:DD HH:MM:SS` shape makes the lexicographic order the
/// chronological one).
pub open spec fn date_le(a: ImageData, b: ImageData) -> bool {
    match (a.date_created, b.date_created) {
        (Option::None, _) => true,
        (Option::Some(_), Option::None) => false,
        (Option::Some(x), Option::Some(y)) => bytes_le(encode_utf8(x@), encode_utf8(y@)),
    }
}

/// The sequence is ordered by `date_le`.
pub open spec fn sorted_by_date(s: Seq<ImageData>) -> bool {
    forall|i: int, j: int| 0 <= i < j < s.len() ==> date_le(s[i], s[j])
}

/// Any two byte strings are comparable.
proof fn lemma_bytes_le_total(a: Seq<u8>, b: Seq<u8>)
    ensures
        bytes_le(a, b) || bytes_le(b, a),
    decreases a.len(),
{
    if a.len() > 0 && b.len() > 0 && a[0] == b[0] {
        lemma_bytes_le_total(a.skip(1), b.skip(1));
    }
}

/// Byte-wise lexicographic order is transitive.
proof fn lemma_bytes_le_trans(a: Seq<u8>, b: Seq<u8>, c: Seq<u8>)
    requires
        bytes_le(a, b),
        bytes_le(b, c),
    ensures
        bytes_le(a, c),
    decreases a.len(),
{
    if a.len() > 0 && b.len() > 0 && c.len() > 0 && a[0] == b[0] && b[0] == c[0] {
        lemma_bytes_le_trans(a.skip(1), b.skip(1), c.skip(1));
    }
}

/// Any two records are comparable by date.
proof fn lemma_date_le_total(a: ImageData, b: ImageData)
    ensures
        date_le(a, b) || date_le(b, a),
{
    match (a.date_created, b.date_created) {
        (Option::Some(x), Option::Some(y)) => {
            lemma_bytes_le_total(encode_utf8(x@), encode_utf8(y@));
        },
        _ => {},
    }
}

/// The date order is transitive.
proof fn lemma_date_le_trans(a: ImageData, b: ImageData, c: ImageData)
    requires
        date_le(a, b),
        date_le(b, c),
    ensures
        date_le(a, c),
{
    match (a.date_created, b.date_created, c.date_created) {
        (Option::Some(x), Option::Some(y), Option::Some(z)) => {
            lemma_bytes_le_trans(encode_utf8(x@), encode_utf8(y@), encode_utf8(z@));
        },
        _ => {},
    }
}

/// Comparing one position later leaves the lexicographic answer unchanged
/// while the bytes agree.
proof fn lemma_bytes_le_step(a: Seq<u8>, b: Seq<u8>, i: int)
    requires
        0 <= i < a.len(),
        i < b.len(),
        a[i] == b[i],
    ensures
        bytes_le(a.skip(i), b.skip(i)) == bytes_le(a.skip(i + 1), b.skip(i + 1)),
{
    assert(a.skip(i).skip(1) =~= a.skip(i + 1));
    assert(b.skip(i).skip(1) =~= b.skip(i + 1));
    assert(a.skip(i)[0] == a[i]);
    assert(b.skip(i)[0] == b[i]);
}

/// Byte-wise lexicographic comparison of two strings, the order `str`
/// comparison uses.
fn str_bytes_le(a: &str, b: &str) -> (le: bool)
    ensures
        le == bytes_le(encode_utf8(a@), encode_utf8(b@)),
{
    let ab = a.as_bytes();
    let bb = b.as_bytes();
    let mut i: usize = 0;
    while i < ab.len() && i < bb.len()
        invariant
            i <= ab@.len(),
            i <= bb@.len(),
            bytes_le(ab@, bb@) == bytes_le(ab@.skip(i as int), bb@.skip(i as int)),
        decreases ab@.len() - i,
    {
        let x = ab[i];
        let y = bb[i];
        if x < y {
            proof {
                assert(ab@.skip(i as int)[0] == x && bb@.skip(i as int)[0] == y);
            }
            return true;
        }
        if x > y {
            proof {
                assert(ab@.skip(i as int)[0] == x && bb@.skip(i as int)[0] == y);
            }
            return false;
        }
        proof {
            lemma_bytes_le_step(ab@, bb@, i as int);
        }
        i = i + 1;
    }
    proof {
        if i == ab@.len() {
            assert(ab@.skip(i as int) =~= Seq::<u8>::empty());
        } else {
            assert(bb@.skip(i as int) =~= Seq::<u8>::empty());
            assert(ab@.skip(i as int).len() > 0);
        }
    }
    ab.len() <= bb.len()
}

/// Compares two records by creation date, records without a date first.
fn date_le_exec(a: &ImageData, b: &ImageData) -> (le: bool)
    ensures
        le == date_le(*a, *b),
{
    match (&a.date_created, &b.date_created) {
        (Option::None, _) => true,
        (Option::Some(_), Option::None) => false,
        (Option::Some(x), Option::Some(y)) => str_bytes_le(x.as_str(), y.as_str()),
    }
}

/// Sorts image records chronologically, oldest first, records without a
/// creation date before all dated ones.  The result is a permutation of the
/// input, ordered by `date_le`.
pub fn image_sort(images: Vec<ImageData>) -> (sorted: Vec<ImageData>)
    ensures
        sorted@.to_multiset() == images@.to_multiset(),
        sorted_by_date(sorted@),
        sorted@.len() == images@.len(),
{
    let mut input = images;
    let mut out: Vec<ImageData> = Vec::new();
    proof {
        assert(out@.to_multiset().add(input@.to_multiset()) =~= images@.to_multiset());
    }
    while input.len() > 0
        invariant
            out@.to_multiset().add(input@.to_multiset()) == images@.to_multiset(),
            sorted_by_date(out@),
        decreases input@.len(),
    {
        let ghost old_out = out@;
        let ghost old_input = input@;
        let x = input.remove(0);
        let mut j: usize = 0;
        while j < out.len() && date_le_exec(&out[j], &x)
            invariant
                j <= out@.len(),
                forall|k: int| 0 <= k < j as int ==> date_le(out@[k], x),
            decreases out@.len() - j,
        {
            j = j + 1;
        }
        proof {
            old_out.insert_ensures(j as int, x);
            if (j as int) < old_out.len() {
                lemma_date_le_total(old_out[j as int], x);
            }
        }
        out.insert(j, x);
        proof {
            let ns = out@;
            assert forall|i1: int, i2: int| 0 <= i1 < i2 < ns.len() implies date_le(
                ns[i1],
                ns[i2],
            ) by {
                if i1 == j as int {
                    // ns[i1] is x and ns[i2] is an old element at or after j.
                    assert(ns[i2] == old_out[i2 - 1]);
                    if i2 - 1 > j as int {
                        lemma_date_le_trans(x, old_out[j as int], old_out[i2 - 1]);
                    }
                } else if i2 == j as int {
                    assert(ns[i1] == old_out[i1]);
                } else if i1 < j as int && i2 > j as int {
                    assert(ns[i1] == old_out[i1] && ns[i2] == old_out[i2 - 1]);
                    if i1 == i2 - 1 {
                    } else {
                        assert(date_le(old_out[i1], old_out[i2 - 1]));
                    }
                } else if i2 < j as int {
                    assert(ns[i1] == old_out[i1] && ns[i2] == old_out[i2]);
                } else {
                    assert(ns[i1] == old_out[i1 - 1] && ns[i2] == old_out[i2 - 1]);
                }
            }
            // The element moved from the front of the input into the output,
            // so the combined multiset is unchanged.
            assert(old_input.to_multiset().contains(x)) by {
                assert(old_input[0] == x);
            }
            assert(out@.to_multiset().add(input@.to_multiset()) =~= images@.to_multiset());
        }
    }
    proof {
        assert(input@.to_multiset().len() == 0);
        assert(out@.to_multiset().add(input@.to_multiset()) =~= out@.to_multiset());
        out@.to_multiset_ensures();
        images@.to_multiset_ensures();
    }
    out
}

/// The lower-case image of an ASCII byte.
pub open spec fn lower_byte(x: u8) -> u8 {
    if 65 <= x <= 90 {
        (x + 32) as u8
    } else {
        x
    }
}

/// The two byte strings are equal up to ASCII case.
pub open spec fn ascii_eq_ignore_case(a: Seq<u8>, b: Seq<u8>) -> bool {
    a.len() == b.len() && (forall|i: int|
        0 <= i < a.len() ==> lower_byte(a[i]) == lower_byte(b[i]))
}

/// The extension names one of the supported image formats.
pub open spec fn is_supported_ext(ext: Seq<u8>) -> bool {
    ||| ascii_eq_ignore_case(ext, encode_utf8("jpg"@))
    ||| ascii_eq_ignore_case(ext, encode_utf8("jpeg"@))
    ||| ascii_eq_ignore_case(ext, encode_utf8("tiff"@))
    ||| ascii_eq_ignore_case(ext, encode_utf8("tif"@))
    ||| ascii_eq_ignore_case(ext, encode_utf8("png"@))
}

/// ASCII-case-insensitive equality of byte strings.
fn eq_ignore_ascii_case(a: &[u8], b: &[u8]) -> (eq: bool)
    ensures
        eq == ascii_eq_ignore_case(a@, b@),
{
    if a.len() != b.len() {
        return false;
    }
    let mut i: usize = 0;
    while i < a.len()
        invariant
            i <= a@.len(),
            forall|k: int| 0 <= k < i as int ==> lower_byte(a@[k]) == lower_byte(b@[k]),
        decreases a@.len() - i,
    {
        let x = a[i];
        let y = b[i];
        let lx = if x >= 65 && x <= 90 {
            x + 32
        } else {
            x
        };
        let ly = if y >= 65 && y <= 90 {
            y + 32
        } else {
            y
        };
        if lx != ly {
            return false;
        }
        i = i + 1;
    }
    true
}

/// Decides whether a file extension belongs to a supported image format
/// (`jpg`, `jpeg`, `tiff`, `tif` or `png`, in any mix of case).
pub fn image_check(ext: &str) -> (ok: bool)
    ensures
        ok == is_supported_ext(encode_utf8(ext@)),
{
    let eb = ext.as_bytes();
    eq_ignore_ascii_case(eb, "jpg".as_bytes()) || eq_ignore_ascii_case(eb, "jpeg".as_bytes())
        || eq_ignore_ascii_case(eb, "tiff".as_bytes()) || eq_ignore_ascii_case(
        eb,
        "tif".as_bytes(),
    ) || eq_ignore_ascii_case(eb, "png".as_bytes())
}

} // verus!
