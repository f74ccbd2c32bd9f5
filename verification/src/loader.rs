//! Theme definitions and how an appearance selection resolves against one:
//! a theme offers named colour-scheme variants, accent presets and an
//! optional default accent; a selection picks the theme, the variant and
//! the accent. Finding and reading theme files is up to the caller.

use vstd::prelude::*;
use crate::theme::{
    join_path, path_join, accented, colors_from_text, dark_scheme, hex_color, light_scheme, midnight_scheme, parse_color, prefer,
    scheme_text_fields, AccentPreset, AppearanceSelection, Color, ColorScheme, ColorSchemeText, InvalidColor,
};
use vstd::utf8::encode_utf8;
use vstd::string::StringExecFns;

verus! {

/// A theme's colours: its variants (each a colour scheme, by id), the
/// variant used when none is chosen, accent presets and an optional
/// default accent.
#[derive(Clone, Debug, PartialEq, Eq)]
pub struct ThemeColors {
    pub id: String,
    pub name: String,
    pub default_variant: String,
    pub variants: Vec<(String, ColorScheme)>,
    pub accent_presets: Vec<AccentPreset>,
    pub default_accent: Option<Color>,
}

/// The position of the first variant named `id`.
pub open spec fn variant_position(variants: Seq<(String, ColorScheme)>, id: Seq<char>) -> Option<int>
    decreases variants.len(),
{
    if variants.len() == 0 {
        None
    } else if variants[0].0@ == id {
        Some(0)
    } else {
        match variant_position(variants.drop_first(), id) {
            Some(i) => Some(i + 1),
            None => None,
        }
    }
}

proof fn lemma_variant_position(variants: Seq<(String, ColorScheme)>, id: Seq<char>)
    ensures
        variant_position(variants, id) matches Some(i) ==> 0 <= i < variants.len() && variants[i].0@ == id
            && forall|j: int| 0 <= j < i ==> #[trigger] variants[j].0@ != id,
        variant_position(variants, id) is None ==> forall|j: int| 0 <= j < variants.len() ==> #[trigger] variants[j].0@ != id,
    decreases variants.len(),
{
    if variants.len() > 0 {
        lemma_variant_position(variants.drop_first(), id);
        assert forall|j: int| 0 < j < variants.len() implies #[trigger] variants[j] == variants.drop_first()[j - 1] by {}
    }
}

/// The scheme of the first variant named `id`.
pub open spec fn variant_named(variants: Seq<(String, ColorScheme)>, id: Seq<char>) -> Option<ColorScheme> {
    match variant_position(variants, id) {
        Some(i) => Some(variants[i].1),
        None => None,
    }
}

/// Finds the first variant named `id`.
fn find_variant(variants: &Vec<(String, ColorScheme)>, id: &String) -> (r: Option<usize>)
    ensures
        r matches Some(i) ==> variant_position(variants@, id@) == Some(i as int),
        r is None ==> variant_position(variants@, id@) is None,
{
    proof { lemma_variant_position(variants@, id@); }
    let mut i: usize = 0;
    while i < variants.len()
        invariant
            i <= variants@.len(),
            forall|j: int| 0 <= j < i ==> #[trigger] variants@[j].0@ != id@,
            variant_position(variants@, id@) matches Some(k) ==> 0 <= k < variants@.len() && variants@[k].0@ == id@
                && forall|j: int| 0 <= j < k ==> #[trigger] variants@[j].0@ != id@,
            variant_position(variants@, id@) is None ==> forall|j: int| 0 <= j < variants@.len() ==> #[trigger] variants@[j].0@ != id@,
        decreases variants@.len() - i,
    {
        if variants[i].0 == *id {
            return Some(i);
        }
        i = i + 1;
    }
    None
}

impl ThemeColors {
    /// The scheme of the variant named `id`.
    pub fn variant(&self, id: &String) -> (r: Option<ColorScheme>)
        ensures
            r == variant_named(self.variants@, id@),
    {
        proof { lemma_variant_position(self.variants@, id@); }
        match find_variant(&self.variants, id) {
            Some(i) => Some(self.variants[i].1),
            None => None,
        }
    }

    /// The scheme of the default variant; a definition always has it.
    pub fn default_scheme(&self) -> (r: ColorScheme)
        requires
            variant_named(self.variants@, self.default_variant@) is Some,
        ensures
            r == variant_named(self.variants@, self.default_variant@)->0,
    {
        self.variant(&self.default_variant).unwrap()
    }

    /// The built-in `default` theme: `light`, `dark` (the default) and
    /// `midnight` variants, six accent presets and no default accent.
    pub fn builtin_default() -> (r: ThemeColors)
        ensures
            r.id@ == "default"@,
            r.name@ == "Default"@,
            r.default_variant@ == "dark"@,
            r.variants@.len() == 3,
            r.variants@[0].0@ == "light"@ && r.variants@[0].1 == light_scheme(),
            r.variants@[1].0@ == "dark"@ && r.variants@[1].1 == dark_scheme(),
            r.variants@[2].0@ == "midnight"@ && r.variants@[2].1 == midnight_scheme(),
            variant_named(r.variants@, r.default_variant@) == Some(dark_scheme()),
            r.accent_presets@.len() == 6,
            r.accent_presets@[0].id@ == "blue"@ && r.accent_presets@[0].color == (Color { r: 74, g: 144, b: 226, a: 255 }),
            r.accent_presets@[1].id@ == "cyan"@ && r.accent_presets@[1].color == (Color { r: 39, g: 215, b: 255, a: 255 }),
            r.accent_presets@[2].id@ == "green"@ && r.accent_presets@[2].color == (Color { r: 61, g: 201, b: 111, a: 255 }),
            r.accent_presets@[3].id@ == "pink"@ && r.accent_presets@[3].color == (Color { r: 255, g: 117, b: 181, a: 255 }),
            r.accent_presets@[4].id@ == "purple"@ && r.accent_presets@[4].color == (Color { r: 167, g: 123, b: 255, a: 255 }),
            r.accent_presets@[5].id@ == "orange"@ && r.accent_presets@[5].color == (Color { r: 224, g: 165, b: 46, a: 255 }),
            r.default_accent is None,
    {
        proof {
            reveal_strlit("light");
            reveal_strlit("dark");
            reveal_strlit("midnight");
        }
        let mut variants: Vec<(String, ColorScheme)> = Vec::new();
        variants.push(("light".to_owned(), ColorScheme::light()));
        variants.push(("dark".to_owned(), ColorScheme::dark()));
        variants.push(("midnight".to_owned(), ColorScheme::midnight()));
        let mut presets: Vec<AccentPreset> = Vec::new();
        presets.push(AccentPreset { id: "blue".to_owned(), name: "Blue".to_owned(), color: Color::rgb(74, 144, 226) });
        presets.push(AccentPreset { id: "cyan".to_owned(), name: "Cyan".to_owned(), color: Color::rgb(39, 215, 255) });
        presets.push(AccentPreset { id: "green".to_owned(), name: "Green".to_owned(), color: Color::rgb(61, 201, 111) });
        presets.push(AccentPreset { id: "pink".to_owned(), name: "Pink".to_owned(), color: Color::rgb(255, 117, 181) });
        presets.push(AccentPreset { id: "purple".to_owned(), name: "Purple".to_owned(), color: Color::rgb(167, 123, 255) });
        presets.push(AccentPreset { id: "orange".to_owned(), name: "Orange".to_owned(), color: Color::rgb(224, 165, 46) });
        let r = ThemeColors {
            id: "default".to_owned(),
            name: "Default".to_owned(),
            default_variant: "dark".to_owned(),
            variants,
            accent_presets: presets,
            default_accent: None,
        };
        proof {
            let v = r.variants@;
            assert(v[0].0@.len() != ("dark"@).len());
            assert(v[0].0@ != "dark"@);
            assert(v.drop_first()[0] == v[1]);
            assert(variant_position(v.drop_first(), "dark"@) == Some(0int));
        }
        r
    }
}

/// The theme a selection asks for, or `default`.
pub open spec fn selected_theme(selection: AppearanceSelection) -> Seq<char> {
    match selection.theme {
        Some(t) => t@,
        None => "default"@,
    }
}

/// The theme id a selection asks for, or `default`.
pub fn selected_theme_id(selection: &AppearanceSelection) -> (r: String)
    ensures
        r@ == selected_theme(*selection),
{
    match &selection.theme {
        Some(t) => t.clone(),
        None => "default".to_owned(),
    }
}

/// A resolved appearance's colours.
#[derive(Clone, Debug, PartialEq, Eq)]
pub struct ResolvedColors {
    pub theme_id: String,
    pub variant_id: String,
    pub accent: Color,
    /// The variant's scheme with the accent applied.
    pub colors: ColorScheme,
    pub font_family: Option<String>,
}

/// A selection named a variant its theme does not have.
#[derive(Clone, Debug, PartialEq, Eq)]
pub struct VariantNotFound {
    pub theme: String,
    pub variant: String,
}

/// The variant a selection asks for, or the theme's default one.
pub open spec fn selected_variant(selection: AppearanceSelection, theme: ThemeColors) -> Seq<char> {
    match selection.variant {
        Some(v) => v@,
        None => theme.default_variant@,
    }
}

/// The accent that applies: the selection's, else the theme's default,
/// else the variant's own.
pub open spec fn chosen_accent(selection: AppearanceSelection, theme: ThemeColors, variant: ColorScheme) -> Color {
    prefer(selection.accent, prefer(theme.default_accent, Some(variant.accent)))->0
}

/// Resolves `selection` against `theme` (found under `theme_id`): picks
/// the variant and the accent, and applies the accent to the variant.
pub fn resolve_appearance(
    selection: AppearanceSelection,
    theme_id: String,
    theme: &ThemeColors,
) -> (r: Result<ResolvedColors, VariantNotFound>)
    ensures
        match variant_named(theme.variants@, selected_variant(selection, *theme)) {
            None => r matches Err(e) && e.theme@ == theme_id@ && e.variant@ == selected_variant(selection, *theme),
            Some(variant) => r matches Ok(res) && {
                &&& res.theme_id@ == theme_id@
                &&& res.variant_id@ == selected_variant(selection, *theme)
                &&& res.accent == chosen_accent(selection, *theme, variant)
                &&& res.colors == accented(variant, res.accent)
                &&& res.font_family == selection.font_family
            },
        },
{
    let variant_id = match selection.variant {
        Some(v) => v,
        None => theme.default_variant.clone(),
    };
    match theme.variant(&variant_id) {
        None => Err(VariantNotFound { theme: theme_id, variant: variant_id }),
        Some(variant) => {
            let accent = match selection.accent {
                Some(a) => a,
                None => match theme.default_accent {
                    Some(a) => a,
                    None => variant.accent,
                },
            };
            Ok(ResolvedColors {
                theme_id,
                variant_id,
                accent,
                colors: variant.with_accent(accent),
                font_family: selection.font_family,
            })
        },
    }
}

/// An accent preset as a theme file writes it.
#[derive(Clone, Debug, PartialEq, Eq)]
pub struct AccentPresetText {
    pub id: String,
    pub name: String,
    pub color: String,
}

/// A theme file's contents: colours still as hex text, variants in id
/// order.
#[derive(Clone, Debug, PartialEq, Eq)]
pub struct ThemeFileText {
    pub id: String,
    pub name: String,
    pub default_variant: String,
    pub default_accent: Option<String>,
    pub accent_presets: Vec<AccentPresetText>,
    pub variants: Vec<(String, ColorSchemeText)>,
}

/// Why a theme file was refused.
#[derive(Clone, Debug, PartialEq, Eq)]
pub enum ThemeFileError {
    /// It has no id or no name, or its default variant is not among its
    /// variants.
    InvalidDefinition,
    /// A colour does not parse.
    InvalidColor(InvalidColor),
}

impl ThemeFileError {
    /// The text shown for this error.
    pub fn message(&self) -> (m: String)
        ensures
            match self {
                ThemeFileError::InvalidDefinition => m@ == "a theme needs an id, name, and existing default variant"@,
                ThemeFileError::InvalidColor(e) => m@ == "invalid color "@ + e.value@,
            },
    {
        match self {
            ThemeFileError::InvalidDefinition => "a theme needs an id, name, and existing default variant".to_owned(),
            ThemeFileError::InvalidColor(e) => "invalid color ".to_owned().concat(e.value.as_str()),
        }
    }
}

/// A theme file has an id, a name and its default variant.
pub open spec fn well_formed_file(file: ThemeFileText) -> bool {
    &&& file.id@.len() > 0
    &&& file.name@.len() > 0
    &&& exists|i: int| 0 <= i < file.variants@.len() && #[trigger] file.variants@[i].0@ == file.default_variant@
}

/// The hex text of every colour of `variants`, variant by variant.
#[verifier::opaque]
pub open spec fn variant_colors(variants: Seq<(String, ColorSchemeText)>) -> Seq<Seq<u8>>
    decreases variants.len(),
{
    if variants.len() == 0 {
        Seq::empty()
    } else {
        variant_colors(variants.drop_last()) + scheme_text_fields(variants.last().1)
    }
}

/// The hex text of every colour in a theme file, in the order it is read:
/// the variants', then the presets', then the default accent.
#[verifier::opaque]
pub open spec fn file_colors(file: ThemeFileText) -> Seq<Seq<u8>> {
    variant_colors(file.variants@)
        + file.accent_presets@.map_values(|p: AccentPresetText| encode_utf8(p.color@))
        + match file.default_accent {
            Some(a) => seq![encode_utf8(a@)],
            None => Seq::empty(),
        }
}

/// The scheme a variant's hex text parses to.
pub open spec fn parsed_scheme(text: ColorSchemeText) -> ColorScheme {
    crate::theme::scheme_of(Seq::new(16, |i: int| hex_color(scheme_text_fields(text)[i])->0))
}

#[verifier::spinoff_prover]
#[verifier::rlimit(40)]
proof fn lemma_variant_colors(variants: Seq<(String, ColorSchemeText)>)
    ensures
        variant_colors(variants).len() == 16 * variants.len(),
        forall|k: int, j: int| 0 <= k < variants.len() && 0 <= j < 16
            ==> #[trigger] variant_colors(variants)[16 * k + j] == scheme_text_fields(variants[k].1)[j],
    decreases variants.len(),
{
    reveal(variant_colors);
    if variants.len() > 0 {
        let rest = variants.drop_last();
        lemma_variant_colors(rest);
        assert forall|k: int, j: int| 0 <= k < variants.len() && 0 <= j < 16
            implies #[trigger] variant_colors(variants)[16 * k + j] == scheme_text_fields(variants[k].1)[j] by {
            if k < variants.len() - 1 {
                assert(variant_colors(variants)[16 * k + j] == variant_colors(rest)[16 * k + j]);
                assert(rest[k] == variants[k]);
            }
        }
    }
}

/// Where each colour of a theme file sits in [`file_colors`].
proof fn lemma_file_colors(file: ThemeFileText)
    ensures
        ({
            let colors = file_colors(file);
            let nv = file.variants@.len();
            let np = file.accent_presets@.len();
            &&& colors.len() == 16 * nv + np + (if file.default_accent is Some { 1int } else { 0 })
            &&& forall|k: int, j: int| 0 <= k < nv && 0 <= j < 16
                ==> #[trigger] colors[16 * k + j] == scheme_text_fields(file.variants@[k].1)[j]
            &&& forall|j: int| 0 <= j < np ==> #[trigger] colors[16 * nv + j] == encode_utf8(file.accent_presets@[j].color@)
            &&& file.default_accent matches Some(a) ==> colors[16 * nv + np as int] == encode_utf8(a@)
        }),
{
    reveal(file_colors);
    lemma_variant_colors(file.variants@);
    let colors = file_colors(file);
    let nv = file.variants@.len();
    let vc = variant_colors(file.variants@);
    let pc = file.accent_presets@.map_values(|p: AccentPresetText| encode_utf8(p.color@));
    assert forall|k: int, j: int| 0 <= k < nv && 0 <= j < 16
        implies #[trigger] colors[16 * k + j] == scheme_text_fields(file.variants@[k].1)[j] by {
        assert(colors[16 * k + j] == vc[16 * k + j]);
    }
    assert forall|j: int| 0 <= j < file.accent_presets@.len()
        implies #[trigger] colors[16 * nv + j] == encode_utf8(file.accent_presets@[j].color@) by {
        assert(colors[16 * nv + j] == (vc + pc)[16 * nv + j]);
    }
}

proof fn lemma_variant_parsed(colors: Seq<Seq<u8>>, vtexts: Seq<(String, ColorSchemeText)>, k: int)
    requires
        0 <= k < vtexts.len(),
        forall|a: int, j: int| 0 <= a < vtexts.len() && 0 <= j < 16
            ==> #[trigger] colors[16 * a + j] == scheme_text_fields(vtexts[a].1)[j],
        forall|j: int| 0 <= j < 16 * k ==> #[trigger] hex_color(colors[j]) is Some,
        forall|j: int| 0 <= j < 16 ==> #[trigger] hex_color(scheme_text_fields(vtexts[k].1)[j]) is Some,
    ensures
        forall|j: int| 0 <= j < 16 * (k + 1) ==> #[trigger] hex_color(colors[j]) is Some,
{
    assert forall|j: int| 0 <= j < 16 * (k + 1) implies #[trigger] hex_color(colors[j]) is Some by {
        if j >= 16 * k {
            assert(colors[16 * k + (j - 16 * k)] == scheme_text_fields(vtexts[k].1)[j - 16 * k]);
        }
    }
}

proof fn lemma_variant_refused(colors: Seq<Seq<u8>>, vtexts: Seq<(String, ColorSchemeText)>, k: int, value: Seq<u8>)
    requires
        0 <= k < vtexts.len(),
        colors.len() >= 16 * vtexts.len(),
        forall|a: int, j: int| 0 <= a < vtexts.len() && 0 <= j < 16
            ==> #[trigger] colors[16 * a + j] == scheme_text_fields(vtexts[a].1)[j],
        forall|j: int| 0 <= j < 16 * k ==> #[trigger] hex_color(colors[j]) is Some,
        exists|q: int| {
            &&& 0 <= q < 16
            &&& hex_color(scheme_text_fields(vtexts[k].1)[q]) is None
            &&& value == scheme_text_fields(vtexts[k].1)[q]
            &&& forall|i: int| 0 <= i < q ==> #[trigger] hex_color(scheme_text_fields(vtexts[k].1)[i]) is Some
        },
    ensures
        exists|x: int| {
            &&& 0 <= x < colors.len()
            &&& value == colors[x]
            &&& hex_color(colors[x]) is None
            &&& forall|j: int| 0 <= j < x ==> #[trigger] hex_color(colors[j]) is Some
        },
{
    let q = choose|q: int| {
        &&& 0 <= q < 16
        &&& hex_color(scheme_text_fields(vtexts[k].1)[q]) is None
        &&& value == scheme_text_fields(vtexts[k].1)[q]
        &&& forall|i: int| 0 <= i < q ==> #[trigger] hex_color(scheme_text_fields(vtexts[k].1)[i]) is Some
    };
    assert(colors[16 * k + q] == scheme_text_fields(vtexts[k].1)[q]);
    assert forall|j: int| 0 <= j < 16 * k + q implies #[trigger] hex_color(colors[j]) is Some by {
        if j >= 16 * k {
            assert(colors[16 * k + (j - 16 * k)] == scheme_text_fields(vtexts[k].1)[j - 16 * k]);
        }
    }
    assert(16 * k + q < 16 * vtexts.len());
}

/// Reads a theme file's colours, checking that it has an id, a name and
/// its default variant; the first colour (in reading order) that does not
/// parse is the error.
pub fn theme_from_text(file: ThemeFileText) -> (r: Result<ThemeColors, ThemeFileError>)
    ensures
        !well_formed_file(file) ==> r == Err::<ThemeColors, ThemeFileError>(ThemeFileError::InvalidDefinition),
        well_formed_file(file) && (forall|k: int| 0 <= k < file_colors(file).len() ==> #[trigger] hex_color(file_colors(file)[k]) is Some) ==> (r matches Ok(t) && {
            &&& t.id == file.id
            &&& t.name == file.name
            &&& t.default_variant == file.default_variant
            &&& t.variants@.len() == file.variants@.len()
            &&& forall|i: int| 0 <= i < t.variants@.len() ==> #[trigger] t.variants@[i].0 == file.variants@[i].0
                && t.variants@[i].1 == parsed_scheme(file.variants@[i].1)
            &&& t.accent_presets@.len() == file.accent_presets@.len()
            &&& forall|i: int| 0 <= i < t.accent_presets@.len() ==> {
                let p = #[trigger] t.accent_presets@[i];
                let q = file.accent_presets@[i];
                p.id == q.id && p.name == q.name && Some(p.color) == hex_color(encode_utf8(q.color@))
            }
            &&& t.default_accent == match file.default_accent {
                Some(a) => hex_color(encode_utf8(a@)),
                None => None,
            }
        }),
        r is Ok ==> well_formed_file(file) && forall|k: int| 0 <= k < file_colors(file).len() ==> #[trigger] hex_color(file_colors(file)[k]) is Some,
        well_formed_file(file) && (exists|k: int| 0 <= k < file_colors(file).len() && #[trigger] hex_color(file_colors(file)[k]) is None)
            ==> r matches Err(ThemeFileError::InvalidColor(_)),
        r matches Err(ThemeFileError::InvalidColor(e)) ==> (well_formed_file(file) && exists|k: int| {
            &&& 0 <= k < file_colors(file).len()
            &&& encode_utf8(e.value@) == file_colors(file)[k]
            &&& hex_color(file_colors(file)[k]) is None
            &&& forall|j: int| 0 <= j < k ==> #[trigger] hex_color(file_colors(file)[j]) is Some
        }),
{
    let ghost colors = file_colors(file);
    let ghost vtexts = file.variants@;
    let ghost ptexts = file.accent_presets@;
    let ghost nv_g = vtexts.len();
    proof { lemma_file_colors(file); }
    if file.id.as_str().unicode_len() == 0 || file.name.as_str().unicode_len() == 0 {
        return Err(ThemeFileError::InvalidDefinition);
    }
    let mut found = false;
    let mut i: usize = 0;
    while i < file.variants.len()
        invariant
            i <= file.variants@.len(),
            found <==> exists|j: int| 0 <= j < i && #[trigger] file.variants@[j].0@ == file.default_variant@,
        decreases file.variants@.len() - i,
    {
        if file.variants[i].0 == file.default_variant {
            found = true;
        }
        i = i + 1;
    }
    if !found {
        return Err(ThemeFileError::InvalidDefinition);
    }
    assert(well_formed_file(file));
    let ghost accent_text = file.default_accent;
    let ThemeFileText { id, name, default_variant, default_accent, accent_presets: mut accent_presets, variants: mut texts } = file;
    assert(texts@ =~= vtexts.subrange(0, vtexts.len() as int));
    assert(accent_presets@ =~= ptexts.subrange(0, ptexts.len() as int));
    let mut variants: Vec<(String, ColorScheme)> = Vec::new();
    let mut k: usize = 0;
    let nv = texts.len();
    while k < nv
        invariant
            well_formed_file(file),
            colors == file_colors(file),
            colors.len() >= 16 * nv,
            nv == vtexts.len(),
            texts@ == vtexts.subrange(k as int, vtexts.len() as int),
            k <= nv,
            variants@.len() == k,
            forall|a: int, j: int| 0 <= a < nv && 0 <= j < 16
                ==> #[trigger] colors[16 * a + j] == scheme_text_fields(vtexts[a].1)[j],
            forall|j: int| 0 <= j < 16 * k ==> #[trigger] hex_color(colors[j]) is Some,
            forall|j: int| 0 <= j < k ==> #[trigger] variants@[j].0 == vtexts[j].0 && variants@[j].1 == parsed_scheme(vtexts[j].1),
        decreases nv - k,
    {
        assert(texts@[0] == vtexts[k as int]);
        let (vid, text) = texts.remove(0);
        assert(texts@ =~= vtexts.subrange(k + 1, vtexts.len() as int));
        let ghost fields = scheme_text_fields(text);
        match colors_from_text(text) {
            Ok(scheme) => {
                proof { lemma_variant_parsed(colors, vtexts, k as int); }
                variants.push((vid, scheme));
            },
            Err(e) => {
                proof { lemma_variant_refused(colors, vtexts, k as int, encode_utf8(e.value@)); }
                return Err(ThemeFileError::InvalidColor(e));
            },
        }
        k = k + 1;
    }
    let ghost base = 16 * nv_g;
    let mut presets: Vec<AccentPreset> = Vec::new();
    let mut p: usize = 0;
    let np = accent_presets.len();
    while p < np
        invariant
            well_formed_file(file),
            colors == file_colors(file),
            colors.len() >= base + np,
            np == ptexts.len(),
            accent_presets@ == ptexts.subrange(p as int, ptexts.len() as int),
            p <= np,
            presets@.len() == p,
            forall|j: int| 0 <= j < np ==> #[trigger] colors[base + j] == encode_utf8(ptexts[j].color@),
            forall|j: int| 0 <= j < base + p ==> #[trigger] hex_color(colors[j]) is Some,
            forall|j: int| 0 <= j < p ==> {
                let a = #[trigger] presets@[j];
                let b = ptexts[j];
                a.id == b.id && a.name == b.name && Some(a.color) == hex_color(encode_utf8(b.color@))
            },
        decreases np - p,
    {
        assert(accent_presets@[0] == ptexts[p as int]);
        let text = accent_presets.remove(0);
        assert(accent_presets@ =~= ptexts.subrange(p + 1, ptexts.len() as int));
        let ghost bytes = encode_utf8(text.color@);
        assert(colors[base + p] == bytes);
        match parse_color(text.color) {
            Ok(color) => {
                presets.push(AccentPreset { id: text.id, name: text.name, color });
            },
            Err(e) => {
                assert(encode_utf8(e.value@) == colors[base + p]);
                return Err(ThemeFileError::InvalidColor(e));
            },
        }
        p = p + 1;
    }
    let accent = match default_accent {
        Some(text) => match parse_color(text) {
            Ok(c) => Some(c),
            Err(e) => {
                return Err(ThemeFileError::InvalidColor(e));
            },
        },
        None => None,
    };
    Ok(ThemeColors { id, name, default_variant, variants, accent_presets: presets, default_accent: accent })
}

/// The programmatic part of an appearance selection, built up call by
/// call; it takes precedence over the environment and the appearance file.
pub struct SystemThemeLoader {
    selection: AppearanceSelection,
}

impl SystemThemeLoader {
    pub closed spec fn spec_selection(&self) -> AppearanceSelection {
        self.selection
    }

    /// A loader that chooses nothing itself.
    pub fn new() -> (r: Self)
        ensures
            r.spec_selection().theme is None,
            r.spec_selection().variant is None,
            r.spec_selection().accent is None,
            r.spec_selection().font_family is None,
            r.spec_selection().corners is None,
    {
        SystemThemeLoader { selection: AppearanceSelection::default() }
    }

    /// Chooses the theme.
    pub fn theme(self, id: String) -> (r: Self)
        ensures
            r.spec_selection() == (AppearanceSelection { theme: Some(id), ..self.spec_selection() }),
    {
        SystemThemeLoader { selection: AppearanceSelection { theme: Some(id), ..self.selection } }
    }

    /// Chooses the variant.
    pub fn variant(self, id: String) -> (r: Self)
        ensures
            r.spec_selection() == (AppearanceSelection { variant: Some(id), ..self.spec_selection() }),
    {
        SystemThemeLoader { selection: AppearanceSelection { variant: Some(id), ..self.selection } }
    }

    /// Chooses the accent.
    pub fn accent(self, color: Color) -> (r: Self)
        ensures
            r.spec_selection() == (AppearanceSelection { accent: Some(color), ..self.spec_selection() }),
    {
        SystemThemeLoader { selection: AppearanceSelection { accent: Some(color), ..self.selection } }
    }

    /// Chooses the font family stack.
    pub fn font_family(self, family: String) -> (r: Self)
        ensures
            r.spec_selection() == (AppearanceSelection { font_family: Some(family), ..self.spec_selection() }),
    {
        SystemThemeLoader { selection: AppearanceSelection { font_family: Some(family), ..self.selection } }
    }

    /// What was chosen.
    pub fn into_selection(self) -> (r: AppearanceSelection)
        ensures
            r == self.spec_selection(),
    {
        self.selection
    }
}

/// Byte-wise lexicographic order of UTF-8 text, the order theme ids are
/// listed in.
pub open spec fn bytes_less(a: Seq<u8>, b: Seq<u8>) -> bool
    decreases a.len(),
{
    if b.len() == 0 {
        false
    } else if a.len() == 0 {
        true
    } else if a[0] != b[0] {
        a[0] < b[0]
    } else {
        bytes_less(a.drop_first(), b.drop_first())
    }
}

/// The bytes a theme's id is ordered by.
pub open spec fn id_bytes(theme: ThemeColors) -> Seq<u8> {
    encode_utf8(theme.id@)
}

/// Themes in strictly increasing order of id.
pub open spec fn sorted_by_id(themes: Seq<ThemeColors>) -> bool {
    forall|i: int, j: int| 0 <= i < j < themes.len() ==> bytes_less(id_bytes(#[trigger] themes[i]), id_bytes(#[trigger] themes[j]))
}

pub(crate) proof fn lemma_less_irreflexive(a: Seq<u8>)
    ensures
        !bytes_less(a, a),
    decreases a.len(),
{
    if a.len() > 0 {
        lemma_less_irreflexive(a.drop_first());
    }
}

pub(crate) proof fn lemma_less_total(a: Seq<u8>, b: Seq<u8>)
    ensures
        a == b || bytes_less(a, b) || bytes_less(b, a),
    decreases a.len(),
{
    if a.len() > 0 && b.len() > 0 && a[0] == b[0] {
        lemma_less_total(a.drop_first(), b.drop_first());
        if a.drop_first() == b.drop_first() {
            assert(a =~= seq![a[0]] + a.drop_first());
            assert(b =~= seq![b[0]] + b.drop_first());
        }
    } else if a.len() == 0 && b.len() == 0 {
        assert(a =~= b);
    }
}

pub(crate) proof fn lemma_less_transitive(a: Seq<u8>, b: Seq<u8>, c: Seq<u8>)
    requires
        bytes_less(a, b),
        bytes_less(b, c),
    ensures
        bytes_less(a, c),
    decreases a.len(),
{
    if a.len() > 0 && a[0] == b[0] && b[0] == c[0] {
        lemma_less_transitive(a.drop_first(), b.drop_first(), c.drop_first());
    }
}

pub(crate) proof fn lemma_less_asymmetric(a: Seq<u8>, b: Seq<u8>)
    requires
        bytes_less(a, b),
    ensures
        !bytes_less(b, a),
{
    if bytes_less(b, a) {
        lemma_less_transitive(a, b, a);
        lemma_less_irreflexive(a);
    }
}

/// Whether `a` orders before `b`, byte by byte.
pub(crate) fn bytes_before(a: &[u8], b: &[u8]) -> (r: bool)
    ensures
        r == bytes_less(a@, b@),
{
    let mut i: usize = 0;
    proof {
        assert(a@.skip(0) =~= a@);
        assert(b@.skip(0) =~= b@);
    }
    while i < a.len() && i < b.len() && a[i] == b[i]
        invariant
            i <= a@.len(),
            i <= b@.len(),
            bytes_less(a@, b@) == bytes_less(a@.skip(i as int), b@.skip(i as int)),
        decreases a@.len() - i,
    {
        proof {
            assert(a@.skip(i as int).drop_first() =~= a@.skip(i as int + 1));
            assert(b@.skip(i as int).drop_first() =~= b@.skip(i as int + 1));
        }
        i = i + 1;
    }
    if i == b.len() {
        false
    } else if i == a.len() {
        true
    } else {
        a[i] < b[i]
    }
}

/// The themes found so far, at most one per id, in the order of their ids.
pub struct ThemeCatalog {
    themes: Vec<ThemeColors>,
}

impl ThemeCatalog {
    #[verifier::type_invariant]
    spec fn inv(self) -> bool {
        sorted_by_id(self.themes@)
    }

    /// The themes, in order of id.
    pub closed spec fn entries(&self) -> Seq<ThemeColors> {
        self.themes@
    }

    /// Whether a theme with id `id` is listed.
    pub open spec fn lists(&self, id: Seq<char>) -> bool {
        exists|i: int| 0 <= i < self.entries().len() && #[trigger] self.entries()[i].id@ == id
    }

    /// No themes.
    pub fn new() -> (r: Self)
        ensures
            r.entries() == Seq::<ThemeColors>::empty(),
    {
        ThemeCatalog { themes: Vec::new() }
    }

    /// Whether a theme with id `id` is listed.
    pub fn contains(&self, id: &String) -> (r: bool)
        ensures
            r == self.lists(id@),
    {
        let mut i: usize = 0;
        while i < self.themes.len()
            invariant
                i <= self.themes@.len(),
                forall|j: int| 0 <= j < i ==> #[trigger] self.themes@[j].id@ != id@,
            decreases self.themes@.len() - i,
        {
            if self.themes[i].id == *id {
                return true;
            }
            i = i + 1;
        }
        false
    }

    /// Lists `theme` under id `id`, in its place among the ids listed.
    pub fn add(&mut self, id: String, theme: ThemeColors)
        requires
            !old(self).lists(id@),
        ensures
            sorted_by_id(final(self).entries()),
            exists|k: int| 0 <= k <= old(self).entries().len()
                && final(self).entries() == old(self).entries().insert(k, ThemeColors { id, ..theme }),
    {
        proof { use_type_invariant(&*self); }
        let entry = ThemeColors { id, ..theme };
        let ghost key = id_bytes(entry);
        let mut k: usize = 0;
        while k < self.themes.len() && !bytes_before(entry.id.as_str().as_bytes(), self.themes[k].id.as_str().as_bytes())
            invariant
                k <= self.themes@.len(),
                sorted_by_id(self.themes@),
                !self.lists(entry.id@),
                key == id_bytes(entry),
                forall|j: int| 0 <= j < k ==> bytes_less(id_bytes(#[trigger] self.themes@[j]), key),
            decreases self.themes@.len() - k,
        {
            proof {
                let other = id_bytes(self.themes@[k as int]);
                assert(self.themes@[k as int].id@ != entry.id@);
                vstd::utf8::encode_utf8_decode_utf8(entry.id@);
                vstd::utf8::encode_utf8_decode_utf8(self.themes@[k as int].id@);
                lemma_less_total(other, key);
            }
            k = k + 1;
        }
        let ghost before = self.themes@;
        proof {
            if k < before.len() {
                assert forall|j: int| k <= j < before.len() implies bytes_less(key, id_bytes(#[trigger] before[j])) by {
                    if j > k {
                        lemma_less_transitive(key, id_bytes(before[k as int]), id_bytes(before[j]));
                    }
                }
            }
        }
        let mut themes = Vec::new();
        std::mem::swap(&mut themes, &mut self.themes);
        themes.insert(k, entry);
        proof {
            assert forall|i: int, j: int| 0 <= i < j < themes@.len() implies
                bytes_less(id_bytes(#[trigger] themes@[i]), id_bytes(#[trigger] themes@[j])) by {
                if j < k {
                    assert(themes@[i] == before[i] && themes@[j] == before[j]);
                } else if j == k {
                    assert(themes@[i] == before[i]);
                } else if i < k {
                    assert(themes@[i] == before[i] && themes@[j] == before[j - 1]);
                    lemma_less_transitive(id_bytes(before[i]), key, id_bytes(before[j - 1]));
                } else if i == k {
                    assert(themes@[j] == before[j - 1]);
                } else {
                    assert(themes@[i] == before[i - 1] && themes@[j] == before[j - 1]);
                }
            }
        }
        self.themes = themes;
    }

    /// The themes in order of id, the `fallback` theme listed as `default`
    /// when no theme has that id.
    pub fn finish(self, fallback: ThemeColors) -> (r: Vec<ThemeColors>)
        ensures
            sorted_by_id(r@),
            self.lists("default"@) ==> r@ == self.entries(),
            !self.lists("default"@) ==> exists|k: int| 0 <= k <= self.entries().len() && r@.len() == self.entries().len() + 1
                && r@[k].id@ == "default"@
                && r@ == self.entries().insert(k, ThemeColors { id: r@[k].id, ..fallback }),
    {
        proof { use_type_invariant(&self); }
        let mut catalog = self;
        let id = "default".to_owned();
        proof { reveal_strlit("default"); }
        let ghost name = id;
        if !catalog.contains(&id) {
            catalog.add(id, fallback);
            proof {
                let k = choose|k: int| 0 <= k <= self.entries().len()
                    && catalog.entries() == self.entries().insert(k, ThemeColors { id: name, ..fallback });
                assert(catalog.entries()[k] == ThemeColors { id: name, ..fallback });
                assert(catalog.entries()[k].id@ == "default"@);
            }
        }
        proof { use_type_invariant(&catalog); }
        catalog.themes
    }
}

/// The entries of the `:`-separated path list `s`, empty ones included.
pub open spec fn path_list_entries(s: Seq<char>) -> Seq<Seq<char>>
    decreases s.len(),
{
    if s.len() == 0 {
        seq![Seq::<char>::empty()]
    } else {
        let before = path_list_entries(s.drop_last());
        if s.last() == ':' {
            before.push(Seq::<char>::empty())
        } else {
            before.update(before.len() - 1, before.last().push(s.last()))
        }
    }
}

proof fn lemma_path_list_nonempty(s: Seq<char>)
    ensures
        path_list_entries(s).len() >= 1,
    decreases s.len(),
{
    if s.len() > 0 {
        lemma_path_list_nonempty(s.drop_last());
    }
}

/// Splits a `:`-separated path list such as `$XDG_DATA_DIRS`.
pub fn split_path_list(list: &str) -> (r: Vec<String>)
    ensures
        r@.map_values(|p: String| p@) == path_list_entries(list@),
{
    let n = list.unicode_len();
    let mut out: Vec<String> = Vec::new();
    let mut start: usize = 0;
    let mut i: usize = 0;
    proof {
        assert(list@.take(0) =~= Seq::<char>::empty());
        assert(out@.map_values(|p: String| p@) + seq![list@.subrange(0, 0)] =~= path_list_entries(list@.take(0)));
    }
    while i < n
        invariant
            n == list@.len(),
            start <= i <= n,
            out@.map_values(|p: String| p@) + seq![list@.subrange(start as int, i as int)]
                == path_list_entries(list@.take(i as int)),
        decreases n - i,
    {
        let c = list.get_char(i);
        let ghost prev = out@.map_values(|p: String| p@);
        let ghost seg = list@.subrange(start as int, i as int);
        proof {
            assert(list@.take(i as int + 1).drop_last() =~= list@.take(i as int));
            assert(list@.take(i as int + 1).last() == c);
            lemma_path_list_nonempty(list@.take(i as int));
        }
        if c == ':' {
            let piece = list.substring_char(start, i).to_owned();
            out.push(piece);
            start = i + 1;
            proof {
                assert(out@.map_values(|p: String| p@) =~= prev.push(seg));
                assert(list@.subrange(start as int, i as int + 1) =~= Seq::<char>::empty());
                assert(out@.map_values(|p: String| p@) + seq![list@.subrange(start as int, i as int + 1)]
                    =~= (prev + seq![seg]).push(Seq::<char>::empty()));
            }
        } else {
            proof {
                assert(list@.subrange(start as int, i as int + 1) =~= seg.push(c));
                let whole = prev + seq![seg];
                assert(whole.update(whole.len() - 1, whole.last().push(c)) =~= prev + seq![seg.push(c)]);
            }
        }
        i = i + 1;
    }
    let last = list.substring_char(start, n).to_owned();
    let ghost prev = out@.map_values(|p: String| p@);
    out.push(last);
    proof {
        assert(list@.take(n as int) =~= list@);
        assert(out@.map_values(|p: String| p@) =~= prev + seq![list@.subrange(start as int, n as int)]);
    }
    out
}

/// The text of an optional string.
pub open spec fn text_of(value: Option<String>) -> Option<Seq<char>> {
    match value {
        Some(v) => Some(v@),
        None => None,
    }
}

/// The base of a Unix home under which a directory lives: `$XDG_…` when
/// set, else `$HOME` joined with `fallback`, when `$HOME` is set.
pub open spec fn xdg_base(xdg: Option<Seq<char>>, home: Option<Seq<char>>, fallback: Seq<char>) -> Option<Seq<char>> {
    match xdg {
        Some(dir) => Some(dir),
        None => match home {
            Some(h) => Some(path_join(h, fallback)),
            None => None,
        },
    }
}

/// The appearance file under a config home: `<home>/cream/appearance.toml`.
pub open spec fn appearance_file(config: Seq<char>) -> Seq<char> {
    path_join(path_join(config, "cream"@), "appearance.toml"@)
}

/// `$XDG_…` when set, else `$HOME` joined with `fallback`.
pub(crate) fn xdg_dir(xdg: Option<String>, home: Option<String>, fallback: &str) -> (r: Option<String>)
    ensures
        text_of(r) == xdg_base(text_of(xdg), text_of(home), fallback@),
{
    match xdg {
        Some(dir) => Some(dir),
        None => match home {
            Some(h) => Some(join_path(h.as_str(), fallback)),
            None => None,
        },
    }
}

/// Where the appearance file lives, given `$XDG_CONFIG_HOME` and `$HOME`:
/// `cream/appearance.toml` under `$XDG_CONFIG_HOME`, else under
/// `$HOME/.config`; nowhere when neither is set.
pub fn config_path_from(xdg_config_home: Option<String>, home: Option<String>) -> (r: Option<String>)
    ensures
        text_of(r) == match xdg_base(text_of(xdg_config_home), text_of(home), ".config"@) {
            Some(c) => Some(appearance_file(c)),
            None => None,
        },
{
    match xdg_dir(xdg_config_home, home, ".config") {
        Some(base) => {
            let cream = join_path(base.as_str(), "cream");
            Some(join_path(cream.as_str(), "appearance.toml"))
        },
        None => None,
    }
}

/// Where theme directories are searched, first to last, given
/// `$XDG_DATA_HOME`, `$HOME` and `$XDG_DATA_DIRS`: the user's data home
/// (`$XDG_DATA_HOME`, else `$HOME/.local/share`), then each entry of
/// `$XDG_DATA_DIRS` (`/usr/local/share:/usr/share` when unset).
pub fn data_dirs_from(xdg_data_home: Option<String>, home: Option<String>, xdg_data_dirs: Option<String>) -> (r: Vec<String>)
    ensures
        r@.map_values(|p: String| p@) == match xdg_base(text_of(xdg_data_home), text_of(home), ".local/share"@) {
            Some(d) => seq![d],
            None => Seq::<Seq<char>>::empty(),
        } + path_list_entries(match text_of(xdg_data_dirs) {
            Some(list) => list,
            None => "/usr/local/share:/usr/share"@,
        }),
{
    let mut dirs: Vec<String> = Vec::new();
    if let Some(user) = xdg_dir(xdg_data_home, home, ".local/share") {
        dirs.push(user);
    }
    let ghost first = dirs@.map_values(|p: String| p@);
    let mut system = match xdg_data_dirs {
        Some(list) => split_path_list(list.as_str()),
        None => split_path_list("/usr/local/share:/usr/share"),
    };
    let ghost rest = system@.map_values(|p: String| p@);
    dirs.append(&mut system);
    proof {
        assert(dirs@.map_values(|p: String| p@) =~= first + rest);
    }
    dirs
}

/// The theme for `id` when no data directory has a file for it: the
/// built-in theme for `default`, none for any other id.
pub fn unfiled_theme(id: &str) -> (r: Option<ThemeColors>)
    ensures
        r is Some <==> id@ == "default"@,
        r matches Some(t) ==> t.id@ == "default"@ && t.name@ == "Default"@
            && variant_named(t.variants@, t.default_variant@) == Some(dark_scheme()),
{
    if id.to_owned() == "default".to_owned() {
        Some(ThemeColors::builtin_default())
    } else {
        None
    }
}

} // verus!
