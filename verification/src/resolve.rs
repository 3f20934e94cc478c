//! Locating the physical file for a declared image name.
//!
//! The caller hands over every file path discovered under the input root, in
//! traversal order. The declared name is tried as-is against each path's base
//! name first; failing that, the name's stem is retried once per candidate
//! extension, in a fixed order.

use vstd::prelude::*;
use crate::strutil::{base_name, spec_base_name, spec_stem, stem_of, str_eq};

verus! {

/// The extensions tried when the declared name itself is not found.
pub open spec fn spec_extensions() -> Seq<Seq<char>> {
    seq!["jpg"@, "jpeg"@, "png"@, "bmp"@, "tiff"@, "tif"@]
}

/// The first path whose base name equals `name`.
pub open spec fn spec_first_match(files: Seq<Seq<char>>, name: Seq<char>) -> Option<Seq<char>>
    decreases files.len(),
{
    if files.len() == 0 {
        None
    } else if spec_base_name(files.first()) == name {
        Some(files.first())
    } else {
        spec_first_match(files.drop_first(), name)
    }
}

/// The first path matching the stem with one of the candidate extensions.
pub open spec fn spec_resolve_ext(files: Seq<Seq<char>>, stem: Seq<char>, exts: Seq<Seq<char>>)
    -> Option<Seq<char>>
    decreases exts.len(),
{
    if exts.len() == 0 {
        None
    } else {
        match spec_first_match(files, stem + "."@ + exts.first()) {
            Some(p) => Some(p),
            None => spec_resolve_ext(files, stem, exts.drop_first()),
        }
    }
}

/// Where a declared image name resolves to, if anywhere: the exact name
/// first, then the stem under each candidate extension.
pub open spec fn spec_resolve(files: Seq<Seq<char>>, declared: Seq<char>) -> Option<Seq<char>> {
    match spec_first_match(files, declared) {
        Some(p) => Some(p),
        None => spec_resolve_ext(files, spec_stem(spec_base_name(declared)), spec_extensions()),
    }
}

/// Scans the discovered paths for one whose base name equals `name`.
fn find_with_name(files: &Vec<String>, name: &str) -> (r: Option<String>)
    ensures
        match r {
            Some(p) => spec_first_match(files@.map_values(|s: String| s@), name@) == Some(p@),
            None => spec_first_match(files@.map_values(|s: String| s@), name@) is None,
        },
{
    let ghost mapped = files@.map_values(|s: String| s@);
    let n = files.len();
    let mut i: usize = 0;
    proof {
        assert(mapped.skip(0) =~= mapped);
    }
    while i < n
        invariant
            n == files@.len(),
            i <= n,
            mapped == files@.map_values(|s: String| s@),
            spec_first_match(mapped, name@) == spec_first_match(mapped.skip(i as int), name@),
        decreases n - i,
    {
        let b = base_name(files[i].as_str());
        proof {
            assert(mapped.skip(i as int).first() == mapped[i as int]);
            assert(mapped.skip(i as int).drop_first() =~= mapped.skip(i as int + 1));
        }
        if str_eq(b.as_str(), name) {
            return Some(files[i].clone());
        }
        i += 1;
    }
    proof {
        assert(mapped.skip(n as int) =~= Seq::<Seq<char>>::empty());
    }
    None
}

/// Locates the physical file for a declared image name among the discovered
/// paths: the exact name first, then the stem under each candidate extension.
pub fn find_image_file(files: &Vec<String>, image_filename: &str) -> (r: Option<String>)
    ensures
        match r {
            Some(p) => spec_resolve(files@.map_values(|s: String| s@), image_filename@) == Some(
                p@,
            ),
            None => spec_resolve(files@.map_values(|s: String| s@), image_filename@) is None,
        },
{
    let ghost mapped = files@.map_values(|s: String| s@);
    match find_with_name(files, image_filename) {
        Some(p) => {
            return Some(p);
        },
        None => {},
    }
    let base = base_name(image_filename);
    let stem = stem_of(base.as_str());
    let exts: Vec<&str> = vec!["jpg", "jpeg", "png", "bmp", "tiff", "tif"];
    proof {
        assert(exts@.map_values(|e: &str| e@) =~= spec_extensions());
        assert(spec_extensions().skip(0) =~= spec_extensions());
    }
    let mut k: usize = 0;
    while k < 6
        invariant
            exts@.len() == 6,
            k <= 6,
            mapped == files@.map_values(|s: String| s@),
            exts@.map_values(|e: &str| e@) == spec_extensions(),
            stem@ == spec_stem(spec_base_name(image_filename@)),
            spec_resolve(mapped, image_filename@) == spec_resolve_ext(
                mapped,
                stem@,
                spec_extensions().skip(k as int),
            ),
        decreases 6 - k,
    {
        let mut search = stem.clone();
        search.append(".");
        search.append(exts[k]);
        proof {
            let rest = spec_extensions().skip(k as int);
            assert(rest.first() == spec_extensions()[k as int]);
            assert(rest.drop_first() =~= spec_extensions().skip(k as int + 1));
            assert(search@ == stem@ + "."@ + rest.first());
        }
        match find_with_name(files, search.as_str()) {
            Some(p) => {
                return Some(p);
            },
            None => {},
        }
        k += 1;
    }
    proof {
        assert(spec_extensions().skip(6) =~= Seq::<Seq<char>>::empty());
    }
    None
}

} // verus!
