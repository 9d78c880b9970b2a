//! Where files of the catalog live on disk: the configured roots (a base
//! label and its directory), the absolute paths that belong to an entry, the
//! check that a download stays inside a root, and where a new download of a
//! given asset category goes by default.
use vstd::prelude::*;
use vstd::string::*;
use crate::catalog::{Catalog, hash_live};
use crate::paths::{join, join_path, last_index, last_index_of, set_extension, under, is_under, relative, get_relative_path, with_extension};
use crate::text::{eq_fold, lower_of, lowercase, str_eq, str_eq_fold};

verus! {

/// The views of (name, path) pairs: roots of the catalog, or download
/// directories of asset categories.
pub open spec fn pair_views(v: Seq<(String, String)>) -> Seq<(Seq<char>, Seq<char>)> {
    v.map_values(|p: (String, String)| (p.0@, p.1@))
}

/// The path paired with `name`; the last pair wins.
pub open spec fn lookup(v: Seq<(Seq<char>, Seq<char>)>, name: Seq<char>) -> Option<Seq<char>>
    decreases v.len(),
{
    if v.len() == 0 {
        None
    } else if v.last().0 == name {
        Some(v.last().1)
    } else {
        lookup(v.drop_last(), name)
    }
}

/// Finds the path paired with `name`.
pub fn find_path(v: &Vec<(String, String)>, name: &str) -> (r: Option<String>)
    ensures
        match r {
            Some(p) => lookup(pair_views(v@), name@) == Some(p@),
            None => lookup(pair_views(v@), name@) is None,
        },
{
    let mut k: usize = v.len();
    assert(pair_views(v@).subrange(0, k as int) =~= pair_views(v@));
    while k > 0
        invariant
            k <= v@.len(),
            lookup(pair_views(v@), name@) == lookup(pair_views(v@).subrange(0, k as int), name@),
        decreases k,
    {
        let ghost pre = pair_views(v@).subrange(0, k as int);
        assert(pre.drop_last() =~= pair_views(v@).subrange(0, k - 1));
        if str_eq(v[k - 1].0.as_str(), name) {
            return Some(v[k - 1].1.clone());
        }
        k -= 1;
    }
    None
}

/// The absolute paths of an entry's model file, its metadata file and its
/// model metadata file, and the URL path of its preview image.
pub open spec fn abs_paths(
    roots: Seq<(Seq<char>, Seq<char>)>,
    label: Seq<char>,
    rel: Seq<char>,
    url_prefix: Seq<char>,
    preview_ext: Seq<char>,
) -> (Seq<char>, Seq<char>, Seq<char>, Seq<char>) {
    match lookup(roots, label) {
        None => (seq![], seq![], seq![], seq![]),
        Some(base) => {
            let model = join(base, rel);
            (
                model,
                with_extension(model, seq!['j', 's', 'o', 'n']),
                with_extension(model, seq!['m', 'o', 'd', 'e', 'l', '.', 'j', 's', 'o', 'n']),
                with_extension(join(seq!['/'] + url_prefix + label, rel), preview_ext),
            )
        },
    }
}

/// The paths that belong to the entry at `rel_path` under the root labelled
/// `label`; all empty where no root has that label. Preview images are served
/// under `/<url_prefix><label>/` with the extension `preview_ext`.
pub fn get_abs_path(
    roots: &Vec<(String, String)>,
    label: &str,
    rel_path: &str,
    url_prefix: &str,
    preview_ext: &str,
) -> (r: (String, String, String, String))
    ensures
        (r.0@, r.1@, r.2@, r.3@) == abs_paths(pair_views(roots@), label@, rel_path@, url_prefix@, preview_ext@),
{
    match find_path(roots, label) {
        None => (String::new(), String::new(), String::new(), String::new()),
        Some(base) => {
            let model = join_path(base.as_str(), rel_path);
            let json = set_extension(model.as_str(), "json");
            let model_json = set_extension(model.as_str(), "model.json");
            let mut img = String::from_str("/");
            img.append(url_prefix);
            img.append(label);
            let preview_path = join_path(img.as_str(), rel_path);
            let preview = set_extension(preview_path.as_str(), preview_ext);
            proof {
                reveal_strlit("json");
                reveal_strlit("model.json");
                reveal_strlit("/");
                assert("json"@ =~= seq!['j', 's', 'o', 'n']);
                assert("model.json"@ =~= seq!['m', 'o', 'd', 'e', 'l', '.', 'j', 's', 'o', 'n']);
                assert(img@ =~= seq!['/'] + url_prefix@ + label@);
            }
            (model, json, model_json, preview)
        },
    }
}

#[derive(Debug)]
pub enum DownloadError {
    /// The destination does not lie under any root of the catalog.
    OutsideRoots,
}

/// Some root has `path` under it.
pub open spec fn inside_roots(roots: Seq<(Seq<char>, Seq<char>)>, path: Seq<char>) -> bool {
    exists|i: int| 0 <= i < roots.len() && under(path, #[trigger] roots[i].1)
}

/// Checks that the file `name` in directory `dest` lies under a root, and
/// returns its path.
pub fn download_target(roots: &Vec<(String, String)>, dest: &str, name: &str) -> (r: Result<String, DownloadError>)
    ensures
        r is Ok <==> inside_roots(pair_views(roots@), join(dest@, name@)),
        r is Ok ==> r->Ok_0@ == join(dest@, name@),
{
    let path = join_path(dest, name);
    let mut i: usize = 0;
    while i < roots.len()
        invariant
            i <= roots@.len(),
            path@ == join(dest@, name@),
            forall|k: int| 0 <= k < i ==> !under(path@, #[trigger] pair_views(roots@)[k].1),
        decreases roots@.len() - i,
    {
        if is_under(path.as_str(), roots[i].1.as_str()) {
            assert(under(path@, pair_views(roots@)[i as int].1));
            return Ok(path);
        }
        i += 1;
    }
    Err(DownloadError::OutsideRoots)
}

/// The first root that has `path` under it: its label and the path relative
/// to it.
pub fn locate(roots: &Vec<(String, String)>, path: &str) -> (r: Option<(String, String)>)
    ensures
        r is None <==> !inside_roots(pair_views(roots@), path@),
        r is Some ==> exists|i: int|
            0 <= i < roots@.len() && under(path@, #[trigger] pair_views(roots@)[i].1) && r->Some_0.0@
                == pair_views(roots@)[i].0 && r->Some_0.1@ == relative(path@, pair_views(roots@)[i].1)
                && forall|k: int| 0 <= k < i ==> !under(path@, #[trigger] pair_views(roots@)[k].1),
{
    let mut i: usize = 0;
    while i < roots.len()
        invariant
            i <= roots@.len(),
            forall|k: int| 0 <= k < i ==> !under(path@, #[trigger] pair_views(roots@)[k].1),
        decreases roots@.len() - i,
    {
        match get_relative_path(roots[i].1.as_str(), path) {
            Ok(rel) => {
                assert(under(path@, pair_views(roots@)[i as int].1));
                return Some((roots[i].0.clone(), rel));
            },
            Err(_) => {},
        }
        i += 1;
    }
    None
}

/// The default directory for downloads of category `model_type` under
/// `base`, where `lowered` is the category in lower case.
pub open spec fn guessed_location(base: Seq<char>, model_type: Seq<char>, lowered: Seq<char>) -> Seq<char> {
    if eq_fold(model_type, seq!['L', 'O', 'R', 'A']) {
        join(base, seq!['l', 'o', 'r', 'a', 's'])
    } else if eq_fold(model_type, seq!['H', 'y', 'p', 'e', 'r', 'n', 'e', 't', 'w', 'o', 'r', 'k']) {
        join(base, seq!['h', 'y', 'p', 'e', 'r', 'n', 'e', 't', 'w', 'o', 'r', 'k', 's'])
    } else if eq_fold(model_type, seq!['C', 'h', 'e', 'c', 'k', 'p', 'o', 'i', 'n', 't']) {
        join(base, seq!['c', 'h', 'e', 'c', 'k', 'p', 'o', 'i', 'n', 't', 's'])
    } else {
        join(base, lowered)
    }
}

/// The default directory for downloads of category `model_type` under
/// `base_path`, given the category in lower case.
pub fn guess_location_lowered(base_path: &str, model_type: &str, lowered: &str) -> (r: String)
    ensures
        r@ == guessed_location(base_path@, model_type@, lowered@),
{
    proof {
        reveal_strlit("LORA");
        reveal_strlit("loras");
        reveal_strlit("Hypernetwork");
        reveal_strlit("hypernetworks");
        reveal_strlit("Checkpoint");
        reveal_strlit("checkpoints");
        assert("LORA"@ =~= seq!['L', 'O', 'R', 'A']);
        assert("loras"@ =~= seq!['l', 'o', 'r', 'a', 's']);
        assert("Hypernetwork"@ =~= seq!['H', 'y', 'p', 'e', 'r', 'n', 'e', 't', 'w', 'o', 'r', 'k']);
        assert("hypernetworks"@ =~= seq!['h', 'y', 'p', 'e', 'r', 'n', 'e', 't', 'w', 'o', 'r', 'k', 's']);
        assert("Checkpoint"@ =~= seq!['C', 'h', 'e', 'c', 'k', 'p', 'o', 'i', 'n', 't']);
        assert("checkpoints"@ =~= seq!['c', 'h', 'e', 'c', 'k', 'p', 'o', 'i', 'n', 't', 's']);
    }
    if str_eq_fold(model_type, "LORA") {
        join_path(base_path, "loras")
    } else if str_eq_fold(model_type, "Hypernetwork") {
        join_path(base_path, "hypernetworks")
    } else if str_eq_fold(model_type, "Checkpoint") {
        join_path(base_path, "checkpoints")
    } else {
        join_path(base_path, lowered)
    }
}

/// The default directory for downloads of category `model_type` under
/// `base_path`.
pub fn guess_saved_location(base_path: &str, model_type: &str) -> (r: String)
    ensures
        r@ == guessed_location(base_path@, model_type@, lower_of(model_type@)),
{
    let lowered = lowercase(model_type);
    guess_location_lowered(base_path, model_type, lowered.as_str())
}

/// The directory that holds `p`, as `Path::parent` gives it, or "." where
/// `p` has none.
pub open spec fn parent_of(p: Seq<char>) -> Seq<char> {
    let i = last_index_of(p, '/');
    if p.len() == 0 || p == seq!['/'] {
        seq!['.']
    } else if i < 0 {
        seq![]
    } else if i == 0 {
        seq!['/']
    } else {
        p.subrange(0, i)
    }
}

/// The parent directory of `p`.
pub fn parent_dir(p: &str) -> (r: String)
    ensures
        r@ == parent_of(p@),
{
    proof {
        reveal_strlit(".");
        reveal_strlit("/");
    }
    let n = p.unicode_len();
    if n == 0 || (n == 1 && p.get_char(0) == '/') {
        proof {
            if n == 1 {
                assert(p@ =~= seq!['/']);
            }
        }
        return String::from_str(".");
    }
    proof {
        assert(p@ != seq!['/']) by {
            if p@ == seq!['/'] {
                assert(p@[0] == '/');
            }
        }
    }
    match last_index(p, '/') {
        None => String::new(),
        Some(i) => if i == 0 {
            String::from_str("/")
        } else {
            p.substring_char(0, i).to_owned()
        },
    }
}

/// The model file of the entry at `rel` under the root labelled `label`;
/// empty where no root has that label.
pub open spec fn model_path(roots: Seq<(Seq<char>, Seq<char>)>, label: Seq<char>, rel: Seq<char>) -> Seq<char> {
    match lookup(roots, label) {
        Some(base) => join(base, rel),
        None => seq![],
    }
}

/// The directory of the last root, or "/" where there is none.
pub open spec fn last_root(roots: Seq<(Seq<char>, Seq<char>)>) -> Seq<char> {
    if roots.len() == 0 {
        seq!['/']
    } else {
        roots.last().1
    }
}

/// Where a download goes when no entry has its hash, for the category
/// already in lower case: the directory configured for it, or else the guess
/// under the last root for that lowered category.
pub open spec fn default_location(
    roots: Seq<(Seq<char>, Seq<char>)>,
    dirs: Seq<(Seq<char>, Seq<char>)>,
    lowered: Seq<char>,
) -> Seq<char> {
    match lookup(dirs, lowered) {
        Some(d) => d,
        None => guessed_location(last_root(roots), lowered, lower_of(lowered)),
    }
}

/// The answer to a saved-location request.
pub struct SavedLocation {
    pub saved_location: String,
    pub is_downloaded: bool,
}

/// Where a file with content hash `hash` is or would be saved, given its
/// category and hash already in lower case.
/// Where a live entry has that hash, the directory of its model file, which
/// is already downloaded; otherwise the default location of the category.
pub fn saved_location_lowered(
    catalog: &Catalog,
    roots: &Vec<(String, String)>,
    download_dirs: &Vec<(String, String)>,
    lowered_type: &str,
    lowered_hash: Option<&str>,
) -> (r: SavedLocation)
    ensures
        r.is_downloaded <==> (lowered_hash is Some && exists|i: int|
            0 <= i < catalog@.len() && #[trigger] hash_live(catalog@[i], lowered_hash->Some_0@)),
        r.is_downloaded ==> exists|i: int|
            0 <= i < catalog@.len() && #[trigger] hash_live(catalog@[i], lowered_hash->Some_0@) && (forall|k: int|
                0 <= k < i ==> !hash_live(catalog@[k], lowered_hash->Some_0@)) && r.saved_location@ == parent_of(
                model_path(pair_views(roots@), catalog@[i].base_label@, catalog@[i].path@),
            ),
        !r.is_downloaded ==> r.saved_location@ == default_location(
            pair_views(roots@),
            pair_views(download_dirs@),
            lowered_type@,
        ),
{
    if let Some(h) = lowered_hash {
        if let Ok(item) = catalog.get_by_hash(h) {
            let model = match find_path(roots, item.base_label.as_str()) {
                Some(base) => join_path(base.as_str(), item.path.as_str()),
                None => String::new(),
            };
            return SavedLocation { saved_location: parent_dir(model.as_str()), is_downloaded: true };
        }
    }
    if let Some(d) = find_path(download_dirs, lowered_type) {
        return SavedLocation { saved_location: d, is_downloaded: false };
    }
    let n = roots.len();
    let base = if n == 0 {
        proof {
            reveal_strlit("/");
        }
        String::from_str("/")
    } else {
        roots[n - 1].1.clone()
    };
    SavedLocation {
        saved_location: guess_saved_location(base.as_str(), lowered_type),
        is_downloaded: false,
    }
}

/// Where a file with content hash `hash` of category `model_type` is or
/// would be saved; the hash and the category are compared in lower case.
pub fn saved_location(
    catalog: &Catalog,
    roots: &Vec<(String, String)>,
    download_dirs: &Vec<(String, String)>,
    model_type: &str,
    hash: Option<&str>,
) -> (r: SavedLocation)
    ensures
        r.is_downloaded <==> (hash is Some && exists|i: int|
            0 <= i < catalog@.len() && #[trigger] hash_live(catalog@[i], lower_of(hash->Some_0@))),
        r.is_downloaded ==> exists|i: int|
            0 <= i < catalog@.len() && #[trigger] hash_live(catalog@[i], lower_of(hash->Some_0@)) && (forall|k: int|
                0 <= k < i ==> !hash_live(catalog@[k], lower_of(hash->Some_0@))) && r.saved_location@ == parent_of(
                model_path(pair_views(roots@), catalog@[i].base_label@, catalog@[i].path@),
            ),
        !r.is_downloaded ==> r.saved_location@ == default_location(
            pair_views(roots@),
            pair_views(download_dirs@),
            lower_of(model_type@),
        ),
{
    let lowered_type = lowercase(model_type);
    match hash {
        Some(h) => {
            let lowered_hash = lowercase(h);
            let lh = lowered_hash.as_str();
            let oh = Some(lh);
            let r = saved_location_lowered(catalog, roots, download_dirs, lowered_type.as_str(), oh);
            assert(oh is Some);
            assert(oh->Some_0@ == lower_of(h@));
            assert(r.is_downloaded <==> (oh is Some && exists|i: int| 0 <= i < catalog@.len() && #[trigger] hash_live(catalog@[i], oh->Some_0@)));
            r
        },
        None => saved_location_lowered(catalog, roots, download_dirs, lowered_type.as_str(), None),
    }
}

} // verus!
