//! The colour theme shared by every app, kept under one `cream/` config
//! directory: `active_theme.toml` names the active theme id, and each
//! theme lives in its own `themes/<id>/` folder (`theme.toml` plus an
//! optional `thumbnail.<ext>`). This module decides paths and ids; reading
//! and writing the files is up to the caller.

use vstd::prelude::*;
use vstd::utf8::encode_utf8;
use vstd::string::StringExecFns;
use crate::theme::{ColorScheme, path_join, join_path};
use crate::loader::{text_of, xdg_base, xdg_dir, bytes_less, bytes_before, lemma_less_total, lemma_less_transitive, lemma_less_asymmetric};

verus! {

/// One theme found under `themes/`.
#[derive(Clone, Debug, PartialEq, Eq)]
pub struct ThemeInfo {
    pub id: String,
    pub colors: ColorScheme,
    /// Path of its preview image, if it ships one.
    pub thumbnail: Option<String>,
}

/// The id of the theme used when none is recorded yet.
pub open spec fn default_theme_id() -> Seq<char> {
    seq!['d', 'e', 'f', 'a', 'u', 'l', 't']
}

/// The active theme's id, given the id recorded in `active_theme.toml`
/// (`None` when that file is missing or malformed), and whether the
/// config directory must first be set up with the built-in default.
pub fn active_theme_id(recorded: Option<String>) -> (r: (String, bool))
    ensures
        match recorded {
            Some(id) => r.0@ == id@ && !r.1,
            None => r.0@ == default_theme_id() && r.1,
        },
{
    match recorded {
        Some(id) => (id, false),
        None => {
            proof { reveal_strlit("default"); }
            ("default".to_owned(), true)
        },
    }
}

/// `dir/active_theme.toml`.
pub fn active_theme_path(dir: &str) -> (r: String)
    ensures
        r@ == path_join(dir@, "active_theme.toml"@),
{
    join_path(dir, "active_theme.toml")
}

/// `dir/themes`.
pub fn themes_dir(dir: &str) -> (r: String)
    ensures
        r@ == path_join(dir@, "themes"@),
{
    join_path(dir, "themes")
}

/// `dir/themes/<id>`.
pub fn theme_dir(dir: &str, id: &str) -> (r: String)
    ensures
        r@ == path_join(path_join(dir@, "themes"@), id@),
{
    let themes = themes_dir(dir);
    join_path(themes.as_str(), id)
}

/// `dir/themes/<id>/theme.toml`.
pub fn theme_file_path(dir: &str, id: &str) -> (r: String)
    ensures
        r@ == path_join(path_join(path_join(dir@, "themes"@), id@), "theme.toml"@),
{
    let theme = theme_dir(dir, id);
    join_path(theme.as_str(), "theme.toml")
}

/// Where a theme folder's preview image may be, most preferred first:
/// `thumbnail.png`, `.jpg`, `.jpeg`, then `.webp`.
pub fn thumbnail_candidates(dir: &str) -> (r: Vec<String>)
    ensures
        r@.len() == 4,
        r@[0]@ == path_join(dir@, "thumbnail.png"@),
        r@[1]@ == path_join(dir@, "thumbnail.jpg"@),
        r@[2]@ == path_join(dir@, "thumbnail.jpeg"@),
        r@[3]@ == path_join(dir@, "thumbnail.webp"@),
{
    let mut r = Vec::new();
    r.push(join_path(dir, "thumbnail.png"));
    r.push(join_path(dir, "thumbnail.jpg"));
    r.push(join_path(dir, "thumbnail.jpeg"));
    r.push(join_path(dir, "thumbnail.webp"));
    r
}

/// Themes in order of id, byte by byte (equal ids in any order).
pub open spec fn ordered_by_id(themes: Seq<ThemeInfo>) -> bool {
    forall|i: int, j: int| 0 <= i < j < themes.len()
        ==> !bytes_less(encode_utf8(#[trigger] themes[j].id@), encode_utf8(#[trigger] themes[i].id@))
}

/// `themes`, sorted by id.
pub fn sort_themes(themes: Vec<ThemeInfo>) -> (r: Vec<ThemeInfo>)
    ensures
        r@.to_multiset() == themes@.to_multiset(),
        ordered_by_id(r@),
{
    broadcast use vstd::seq_lib::group_to_multiset_ensures;
    let mut out: Vec<ThemeInfo> = Vec::new();
    let mut rest = themes;
    proof {
        assert(out@.to_multiset() =~= vstd::multiset::Multiset::empty());
        assert(out@.to_multiset().add(rest@.to_multiset()) =~= themes@.to_multiset());
    }
    while rest.len() > 0
        invariant
            out@.to_multiset().add(rest@.to_multiset()) == themes@.to_multiset(),
            ordered_by_id(out@),
        decreases rest@.len(),
    {
        let ghost before_rest = rest@;
        let theme = rest.remove(0);
        let ghost key = encode_utf8(theme.id@);
        let mut k: usize = 0;
        while k < out.len() && !bytes_before(theme.id.as_str().as_bytes(), out[k].id.as_str().as_bytes())
            invariant
                k <= out@.len(),
                key == encode_utf8(theme.id@),
                forall|j: int| 0 <= j < k ==> !bytes_less(key, encode_utf8(#[trigger] out@[j].id@)),
            decreases out@.len() - k,
        {
            k = k + 1;
        }
        let ghost before = out@;
        proof {
            if k < before.len() {
                assert forall|j: int| k <= j < before.len() implies !bytes_less(encode_utf8(#[trigger] before[j].id@), key) by {
                    let first = encode_utf8(before[k as int].id@);
                    let other = encode_utf8(before[j].id@);
                    if j > k {
                        lemma_less_total(first, other);
                        if first != other {
                            lemma_less_transitive(key, first, other);
                        }
                    }
                    lemma_less_asymmetric(key, other);
                }
            }
        }
        out.insert(k, theme);
        proof {
            assert forall|i: int, j: int| 0 <= i < j < out@.len() implies
                !bytes_less(encode_utf8(#[trigger] out@[j].id@), encode_utf8(#[trigger] out@[i].id@)) by {
                if j < k {
                    assert(out@[i] == before[i] && out@[j] == before[j]);
                } else if j == k {
                    assert(out@[i] == before[i]);
                } else if i < k {
                    assert(out@[i] == before[i] && out@[j] == before[j - 1]);
                } else if i == k {
                    assert(out@[j] == before[j - 1]);
                } else {
                    assert(out@[i] == before[i - 1] && out@[j] == before[j - 1]);
                }
            }
            assert(before_rest[0] == theme);
            assert(rest@ == before_rest.remove(0));
            assert(out@ == before.insert(k as int, theme));
            vstd::seq_lib::to_multiset_remove(before_rest, 0);
            vstd::seq_lib::to_multiset_insert(before, k as int, theme);
            assert(rest@.to_multiset() == before_rest.to_multiset().remove(theme));
            assert(out@.to_multiset() == before.to_multiset().insert(theme));
            assert(out@.to_multiset().add(rest@.to_multiset()) =~= before.to_multiset().add(before_rest.to_multiset())) by {
                broadcast use vstd::multiset::group_multiset_axioms;
                assert(before_rest.contains(theme));
                vstd::seq_lib::to_multiset_contains(before_rest, theme);
                assert(before_rest.to_multiset().count(theme) > 0);
            }
        }
    }
    proof {
        assert(rest@.to_multiset() =~= vstd::multiset::Multiset::empty());
        assert(out@.to_multiset() =~= out@.to_multiset().add(rest@.to_multiset()));
    }
    out
}

/// The shared theme directory, given `$XDG_CONFIG_HOME` and `$HOME`:
/// `cream` under `$XDG_CONFIG_HOME`, else under `$HOME/.config`, else
/// under the working directory.
pub fn cream_dir_from(xdg_config_home: Option<String>, home: Option<String>) -> (r: String)
    ensures
        r@ == path_join(
            match xdg_base(text_of(xdg_config_home), text_of(home), ".config"@) {
                Some(c) => c,
                None => "."@,
            },
            "cream"@,
        ),
{
    match xdg_dir(xdg_config_home, home, ".config") {
        Some(base) => join_path(base.as_str(), "cream"),
        None => join_path(".", "cream"),
    }
}

} // verus!
