use vstd::prelude::*;

use crate::strutil::{
    is_suffix_of, lemma_deep_view_push, lemma_filter_push, lemma_map_values_push, replace_char,
    str_contains_char, str_ends_with,
};

verus! {

// ---------------------------------------------------------------------------
// Trusted view of the archive reader.
// ---------------------------------------------------------------------------

#[verifier::external_type_specification]
#[verifier::external_body]
#[verifier::reject_recursive_types(R)]
pub struct ExZipArchive<R>(zip::read::ZipArchive<R>);

#[verifier::external_type_specification]
#[verifier::external_body]
pub struct ExZipError(zip::result::ZipError);

#[verifier::external_type_specification]
#[verifier::external_body]
#[verifier::reject_recursive_types(T)]
pub struct ExCursor<T>(std::io::Cursor<T>);

/// Whether the bytes form an archive whose central directory can be read;
/// this depends on the bytes alone.
pub uninterp spec fn zip_parses(bytes: Seq<u8>) -> bool;

/// The entry names of the archive held in the bytes, in central-directory
/// order; a function of the bytes alone.
pub uninterp spec fn zip_entries(bytes: Seq<u8>) -> Seq<Seq<char>>;

/// The entry names held by an open archive value.
pub uninterp spec fn archive_entries(a: zip::read::ZipArchive<std::io::Cursor<Vec<u8>>>) -> Seq<
    Seq<char>,
>;

/// Relies on `zip::read::ZipArchive::new`: reading the central directory of
/// an in-memory archive succeeds or fails depending on the bytes alone, and
/// fixes the list of entry names.
#[verifier::external_body]
fn zip_open(bytes: Vec<u8>) -> (r: Result<
    zip::read::ZipArchive<std::io::Cursor<Vec<u8>>>,
    zip::result::ZipError,
>)
    ensures
        r is Ok <==> zip_parses(bytes@),
        r matches Ok(a) ==> archive_entries(a) == zip_entries(bytes@),
{
    zip::read::ZipArchive::new(std::io::Cursor::new(bytes))
}

/// Relies on `zip::read::ZipArchive::file_names`: yields the name of every
/// entry of the archive, in the order its metadata holds them.
#[verifier::external_body]
fn zip_file_names(a: &zip::read::ZipArchive<std::io::Cursor<Vec<u8>>>) -> (r: Vec<String>)
    ensures
        r.deep_view() == archive_entries(*a),
{
    a.file_names().map(str::to_owned).collect()
}

// ---------------------------------------------------------------------------
// Which entries qualify, and the class name an entry yields.
// ---------------------------------------------------------------------------

/// A corrupt or unreadable archive.
#[derive(Debug)]
pub enum ScanError {
    Archive,
}

pub open spec fn class_suffix() -> Seq<char> {
    seq!['.', 'c', 'l', 'a', 's', 's']
}

/// An entry qualifies when it is a class file and is not a nested or
/// anonymous class (no nested-type separator anywhere in its name).
pub open spec fn is_class_entry(name: Seq<char>) -> bool {
    is_suffix_of(class_suffix(), name) && !name.contains('$')
}

pub open spec fn normalize_separators(name: Seq<char>) -> Seq<char> {
    name.map_values(|c: char| if c == '\\' { '/' } else { c })
}

/// The canonical class-name key of a qualifying entry: the suffix stripped
/// and path separators normalized.
pub open spec fn class_name_of(name: Seq<char>) -> Seq<char> {
    normalize_separators(name.subrange(0, name.len() - class_suffix().len()))
}

pub open spec fn is_class_entry_fn() -> spec_fn(Seq<char>) -> bool {
    |e: Seq<char>| is_class_entry(e)
}

pub open spec fn class_name_fn() -> spec_fn(Seq<char>) -> Seq<char> {
    |e: Seq<char>| class_name_of(e)
}

/// The class names extracted from a list of entry names: the qualifying
/// entries, in order, each reduced to its class-name key.
pub open spec fn class_names_of(entries: Seq<Seq<char>>) -> Seq<Seq<char>> {
    entries.filter(is_class_entry_fn()).map_values(class_name_fn())
}

/// Decides `is_class_entry` on the entry name.
pub fn is_class_file_name(name: &str) -> (r: bool)
    ensures
        r == is_class_entry(name@),
{
    proof {
        reveal_strlit(".class");
        assert(".class"@ =~= class_suffix());
    }
    let has_suffix = str_ends_with(name, ".class");
    if !has_suffix {
        return false;
    }
    let dollar = str_contains_char(name, '$');
    !dollar
}

/// Strips the class-file suffix and normalizes path separators.
pub fn strip_class_suffix(name: &str) -> (r: String)
    requires
        is_suffix_of(class_suffix(), name@),
    ensures
        r@ == class_name_of(name@),
{
    let len = name.unicode_len();
    proof {
        assert(class_suffix().len() == 6);
    }
    let stem = name.substring_char(0, len - 6);
    let normalized = replace_char(stem, '\\', '/');
    proof {
        assert(normalized@ =~= class_name_of(name@));
    }
    normalized
}

// ---------------------------------------------------------------------------
// Scanning one archive.
// ---------------------------------------------------------------------------

/// Opens one archive held in memory and extracts the class names of its
/// qualifying entries, in entry order. Fails exactly when the archive's
/// directory cannot be parsed; never otherwise.
pub fn scan_archive(bytes: Vec<u8>) -> (r: Result<Vec<String>, ScanError>)
    ensures
        r is Ok <==> zip_parses(bytes@),
        r matches Ok(v) ==> v.deep_view() == class_names_of(zip_entries(bytes@)),
{
    let ghost bv = bytes@;
    let archive = match zip_open(bytes) {
        Ok(a) => a,
        Err(_) => {
            return Err(ScanError::Archive);
        },
    };
    let names = zip_file_names(&archive);
    let ghost ndv = names.deep_view();
    let n = names.len();
    let mut out: Vec<String> = Vec::new();
    proof {
        assert(out.deep_view() =~= Seq::<Seq<char>>::empty());
        assert(ndv.subrange(0, 0) =~= Seq::<Seq<char>>::empty());
        reveal(Seq::filter);
        assert(out.deep_view() =~= class_names_of(ndv.subrange(0, 0)));
    }
    let mut i: usize = 0;
    while i < n
        invariant
            0 <= i <= n,
            n == names@.len(),
            ndv == names.deep_view(),
            out.deep_view() == class_names_of(ndv.subrange(0, i as int)),
        decreases n - i,
    {
        let name: &String = &names[i];
        assert(name@ == ndv[i as int]);
        let keep = is_class_file_name(name.as_str());
        let ghost prefix = ndv.subrange(0, i as int);
        proof {
            assert(ndv.subrange(0, i + 1) =~= prefix.push(ndv[i as int]));
            lemma_filter_push(prefix, is_class_entry_fn(), ndv[i as int]);
            if is_class_entry(ndv[i as int]) {
                lemma_map_values_push(
                    prefix.filter(is_class_entry_fn()),
                    class_name_fn(),
                    ndv[i as int],
                );
            }
        }
        if keep {
            let stripped = strip_class_suffix(name.as_str());
            let ghost before = out;
            let ghost sv = stripped@;
            out.push(stripped);
            proof {
                lemma_deep_view_push(before, out, stripped);
                assert(sv == class_name_fn()(ndv[i as int]));
            }
        }
        i = i + 1;
    }
    proof {
        assert(ndv.subrange(0, n as int) =~= ndv);
    }
    Ok(out)
}

/// The scan is deterministic: what an archive yields is a function of its
/// bytes alone, so scanning the same archive twice yields identical
/// class-name lists.
pub proof fn lemma_scan_deterministic(
    bytes1: Seq<u8>,
    bytes2: Seq<u8>,
    r1: Seq<Seq<char>>,
    r2: Seq<Seq<char>>,
)
    requires
        bytes1 == bytes2,
        r1 == class_names_of(zip_entries(bytes1)),
        r2 == class_names_of(zip_entries(bytes2)),
    ensures
        r1 == r2,
{
}

} // verus!
