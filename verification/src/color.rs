use vstd::prelude::*;

use crate::entry::PathMeta;

verus! {

/// One key/value pair of the color lookup table built from the environment's
/// color specification.
pub struct DictEntry {
    pub key: String,
    pub val: String,
}

/// The view of an optional owned string.
pub open spec fn opt_str_view(o: Option<String>) -> Option<Seq<char>> {
    match o {
        Option::Some(s) => Option::Some(s@),
        Option::None => Option::None,
    }
}

/// The value of the first table entry from position `i` on whose key is `key`.
pub open spec fn dict_get_from(dict: Seq<DictEntry>, key: Seq<char>, i: int) -> Option<Seq<char>>
    decreases dict.len() - i,
{
    if i < 0 || i >= dict.len() {
        Option::None
    } else if dict[i].key@ == key {
        Option::Some(dict[i].val@)
    } else {
        dict_get_from(dict, key, i + 1)
    }
}

/// The value of the first table entry whose key is `key`.
pub open spec fn dict_get_v(dict: Seq<DictEntry>, key: Seq<char>) -> Option<Seq<char>> {
    dict_get_from(dict, key, 0)
}

fn dict_get_idx(dict: &Vec<DictEntry>, key: &String, i: usize) -> (r: Option<String>)
    ensures
        opt_str_view(r) == dict_get_from(dict@, key@, i as int),
    decreases dict@.len() - i,
{
    if i >= dict.len() {
        None
    } else if dict[i].key == *key {
        Some(dict[i].val.clone())
    } else {
        dict_get_idx(dict, key, i + 1)
    }
}

/// Linear search of the color table: the value of the first entry whose key
/// equals `key`, or `None` when no entry has that key.
pub fn dict_get(dict: &Vec<DictEntry>, key: &str) -> (r: Option<String>)
    ensures
        opt_str_view(r) == dict_get_v(dict@, key@),
{
    let k = key.to_owned();
    dict_get_idx(dict, &k, 0)
}

/// A table key of the form `*.<ext>` that names exactly the extension `ext`.
pub open spec fn is_ext_key(key: Seq<char>, ext: Seq<char>) -> bool {
    key.len() >= 2 && key[0] == '*' && key[1] == '.' && key.skip(2) == ext
}

/// The color for extension `ext`: scanning the table in order from `i`, the
/// first key of the form `*.<ext>` wins, and its color is the value of the
/// first entry carrying that key.
pub open spec fn ext_color_from(dict: Seq<DictEntry>, ext: Seq<char>, i: int) -> Option<
    Seq<char>,
>
    decreases dict.len() - i,
{
    if i < 0 || i >= dict.len() {
        Option::None
    } else if is_ext_key(dict[i].key@, ext) {
        dict_get_v(dict, dict[i].key@)
    } else {
        ext_color_from(dict, ext, i + 1)
    }
}

fn ext_color_idx(dict: &Vec<DictEntry>, ext: &String, i: usize) -> (r: Option<String>)
    ensures
        opt_str_view(r) == ext_color_from(dict@, ext@, i as int),
    decreases dict@.len() - i,
{
    if i >= dict.len() {
        return None;
    }
    let key = &dict[i].key;
    let klen = key.as_str().unicode_len();
    let mut matches_key: bool = false;
    if klen >= 2 {
        if key.as_str().get_char(0) == '*' && key.as_str().get_char(1) == '.' {
            let suffix = key.as_str().substring_char(2, klen).to_owned();
            if suffix == *ext {
                matches_key = true;
            }
        }
    }
    proof {
        assert(matches_key == is_ext_key(dict@[i as int].key@, ext@)) by {
            if matches_key {
                assert(dict@[i as int].key@.skip(2) =~= ext@);
            } else if is_ext_key(dict@[i as int].key@, ext@) {
                assert(dict@[i as int].key@.skip(2) =~= ext@);
            }
        }
    }
    if matches_key {
        dict_get(dict, key.as_str())
    } else {
        ext_color_idx(dict, ext, i + 1)
    }
}

/// The color the tree attaches to an entry with metadata `m`, following the
/// precedence of the color table: symbolic links (live or orphaned), then
/// other-writable directories, directories, executables, name extensions,
/// regular files, and lastly the device fallback. A rule whose key is absent
/// from the table falls through to the next, except that a regular file
/// without a file color gets none at all.
pub open spec fn spec_color_from_path(m: PathMeta, dict: Seq<DictEntry>) -> Option<Seq<char>> {
    if m.is_symlink && m.target_exists && dict_get_v(dict, "ln"@) is Some {
        dict_get_v(dict, "ln"@)
    } else if m.is_symlink && !m.target_exists && dict_get_v(dict, "or"@) is Some {
        dict_get_v(dict, "or"@)
    } else if m.has_metadata && m.is_dir && m.mode & 0o002 != 0 && dict_get_v(dict, "ow"@) is Some {
        dict_get_v(dict, "ow"@)
    } else if m.has_metadata && m.is_dir && dict_get_v(dict, "di"@) is Some {
        dict_get_v(dict, "di"@)
    } else if m.has_metadata && m.mode & 0o111 != 0 && dict_get_v(dict, "ex"@) is Some {
        dict_get_v(dict, "ex"@)
    } else if m.extension is Some && ext_color_from(dict, m.extension.unwrap()@, 0) is Some {
        ext_color_from(dict, m.extension.unwrap()@, 0)
    } else if m.is_file {
        dict_get_v(dict, "fi"@)
    } else {
        dict_get_v(dict, "bd"@)
    }
}

/// Resolves the display color of one entry from its metadata and the color
/// table, with the precedence of `spec_color_from_path`.
pub fn color_from_path(meta: &PathMeta, color_dict: &Vec<DictEntry>) -> (r: Option<String>)
    ensures
        opt_str_view(r) == spec_color_from_path(*meta, color_dict@),
{
    if meta.is_symlink {
        if meta.target_exists {
            if let Some(col) = dict_get(color_dict, "ln") {
                return Some(col);
            }
        } else {
            if let Some(col) = dict_get(color_dict, "or") {
                return Some(col);
            }
        }
    }
    if meta.has_metadata {
        if meta.is_dir {
            if meta.mode & 0o002 != 0 {
                if let Some(col) = dict_get(color_dict, "ow") {
                    return Some(col);
                }
            }
            if let Some(col) = dict_get(color_dict, "di") {
                return Some(col);
            }
        }
        if meta.mode & 0o111 != 0 {
            if let Some(col) = dict_get(color_dict, "ex") {
                return Some(col);
            }
        }
    }
    if let Some(ext) = &meta.extension {
        if let Some(col) = ext_color_idx(color_dict, ext, 0) {
            return Some(col);
        }
    }
    if meta.is_file {
        return dict_get(color_dict, "fi");
    }
    dict_get(color_dict, "bd")
}

} // verus!
