//! Filename templates.
//!
//! A template is plain text with substitution tags and presence-conditional
//! sections.  `{{name}}` and `{{{name}}}` substitute a field's value, or
//! nothing when the field is absent.  `{{#name}}` opens a section that
//! renders only when the field is present and `{{/name}}` closes it; a
//! section may hold text and substitution tags but not another section.
//! The recognized field names are `artist`, `title`, `album`,
//! `disc_number`, `track_number` and, for directory templates, `src_dir`.
//! A template that is malformed or names any other field is refused when it
//! is compiled; rendering a compiled template never fails.

use vstd::prelude::*;

verus! {

/// A field a template may refer to.
#[derive(Clone, Copy, PartialEq, Eq, Structural, Debug)]
pub enum Field {
    Artist,
    Title,
    Album,
    DiscNumber,
    TrackNumber,
    SrcDir,
}

/// What may stand inside a section: plain text or one substitution.
#[derive(Debug)]
pub enum Piece {
    Lit(Vec<char>),
    Var(Field),
}

/// One compiled element of a template.
#[derive(Debug)]
pub enum Item {
    Lit(Vec<char>),
    Var(Field),
    Section(Field, Vec<Piece>),
}

/// The mathematical form of a `Piece`.
pub enum PieceV {
    Lit(Seq<char>),
    Var(Field),
}

/// The mathematical form of an `Item`.
pub enum ItemV {
    Lit(Seq<char>),
    Var(Field),
    Section(Field, Seq<PieceV>),
}

impl View for Piece {
    type V = PieceV;

    open spec fn view(&self) -> PieceV {
        match self {
            Piece::Lit(s) => PieceV::Lit(s@),
            Piece::Var(f) => PieceV::Var(*f),
        }
    }
}

impl View for Item {
    type V = ItemV;

    open spec fn view(&self) -> ItemV {
        match self {
            Item::Lit(s) => ItemV::Lit(s@),
            Item::Var(f) => ItemV::Var(*f),
            Item::Section(f, ps) => ItemV::Section(*f, ps@.map_values(|p: Piece| p@)),
        }
    }
}

/// The views of a sequence of pieces.
pub open spec fn pieces_view(ps: Seq<Piece>) -> Seq<PieceV> {
    ps.map_values(|p: Piece| p@)
}

/// The views of a sequence of items.
pub open spec fn items_view(items: Seq<Item>) -> Seq<ItemV> {
    items.map_values(|it: Item| it@)
}

/// A compiled template.
#[derive(Debug)]
pub struct Template {
    pub items: Vec<Item>,
}

impl View for Template {
    type V = Seq<ItemV>;

    open spec fn view(&self) -> Seq<ItemV> {
        items_view(self.items@)
    }
}

/// Compiling a template fails when it is malformed or names an
/// unrecognized field.
#[derive(Debug)]
pub enum TemplateError {
    Compile,
}

impl TemplateError {
    /// A line for the user naming what went wrong.
    pub fn message(&self) -> (r: String)
        ensures
            r@ == "template is malformed or names an unrecognized field"@,
    {
        let mut s: String = String::new();
        s.append("template is malformed or names an unrecognized field");
        s
    }
}

/// Whether `c` may stand in a field name.
pub open spec fn name_char(c: char) -> bool {
    (97 <= (c as u32) <= 122) || c == '_'
}

/// The length of the run of name characters opening `s`.
pub open spec fn name_len(s: Seq<char>) -> nat
    decreases s.len(),
{
    if s.len() > 0 && name_char(s[0]) {
        1 + name_len(s.skip(1))
    } else {
        0
    }
}

/// The field a name denotes, if any.
pub open spec fn field_of(name: Seq<char>) -> Option<Field> {
    if name == seq!['a', 'r', 't', 'i', 's', 't'] {
        Some(Field::Artist)
    } else if name == seq!['t', 'i', 't', 'l', 'e'] {
        Some(Field::Title)
    } else if name == seq!['a', 'l', 'b', 'u', 'm'] {
        Some(Field::Album)
    } else if name == seq!['d', 'i', 's', 'c', '_', 'n', 'u', 'm', 'b', 'e', 'r'] {
        Some(Field::DiscNumber)
    } else if name == seq!['t', 'r', 'a', 'c', 'k', '_', 'n', 'u', 'm', 'b', 'e', 'r'] {
        Some(Field::TrackNumber)
    } else if name == seq!['s', 'r', 'c', '_', 'd', 'i', 'r'] {
        Some(Field::SrcDir)
    } else {
        None
    }
}

/// Whether `s` opens with a tag opener `{{`.
pub open spec fn is_open(s: Seq<char>) -> bool {
    s.len() >= 2 && s[0] == '{' && s[1] == '{'
}

/// The length of the literal text opening `s`, up to the next tag opener
/// or the end.
pub open spec fn lit_len(s: Seq<char>) -> nat
    decreases s.len(),
{
    if s.len() == 0 || is_open(s) {
        0
    } else {
        1 + lit_len(s.skip(1))
    }
}

/// The literal run never outruns the text and is non-empty whenever the
/// text neither is empty nor opens a tag.
proof fn lemma_lit_len_bound(s: Seq<char>)
    ensures
        lit_len(s) <= s.len(),
        s.len() > 0 && !is_open(s) ==> lit_len(s) >= 1,
    decreases s.len(),
{
    if s.len() > 0 && !is_open(s) {
        lemma_lit_len_bound(s.skip(1));
    }
}

/// Parse the inside of a section opened for `f`: pieces up to and
/// including the matching `{{/name}}`.  Returns the pieces and what
/// follows the closing tag; `None` when the section is unclosed, nested,
/// or holds a bad tag.
pub open spec fn parse_section_body(f: Field, s: Seq<char>) -> Option<(Seq<PieceV>, Seq<char>)>
    decreases s.len(),
    via parse_section_body_decreases
{
    if s.len() == 0 {
        None
    } else if is_open(s) {
        let rest = s.skip(2);
        if rest.len() > 0 && rest[0] == '/' {
            let body = rest.skip(1);
            let nl = name_len(body);
            if nl > 0 && body.len() >= nl + 2 && body[nl as int] == '}' && body[nl as int + 1] == '}'
                && field_of(body.take(nl as int)) == Some(f) {
                Some((Seq::empty(), body.skip(nl as int + 2)))
            } else {
                None
            }
        } else if rest.len() > 0 && rest[0] == '{' {
            let body = rest.skip(1);
            let nl = name_len(body);
            if nl > 0 && body.len() >= nl + 3 && body[nl as int] == '}' && body[nl as int + 1] == '}'
                && body[nl as int + 2] == '}' && field_of(body.take(nl as int)) is Some {
                let g = field_of(body.take(nl as int))->Some_0;
                match parse_section_body(f, body.skip(nl as int + 3)) {
                    Some((ps, rem)) => Some((seq![PieceV::Var(g)] + ps, rem)),
                    None => None,
                }
            } else {
                None
            }
        } else if rest.len() > 0 && rest[0] != '#' {
            let nl = name_len(rest);
            if nl > 0 && rest.len() >= nl + 2 && rest[nl as int] == '}' && rest[nl as int + 1] == '}'
                && field_of(rest.take(nl as int)) is Some {
                let g = field_of(rest.take(nl as int))->Some_0;
                match parse_section_body(f, rest.skip(nl as int + 2)) {
                    Some((ps, rem)) => Some((seq![PieceV::Var(g)] + ps, rem)),
                    None => None,
                }
            } else {
                None
            }
        } else {
            None
        }
    } else {
        let l = lit_len(s);
        match parse_section_body(f, s.skip(l as int)) {
            Some((ps, rem)) => Some((seq![PieceV::Lit(s.take(l as int))] + ps, rem)),
            None => None,
        }
    }
}

#[via_fn]
proof fn parse_section_body_decreases(f: Field, s: Seq<char>) {
    if s.len() > 0 && !is_open(s) {
        lemma_lit_len_bound(s);
    }
}

/// What follows a parsed section is a proper suffix of what the section
/// was parsed from.
proof fn lemma_section_remainder(f: Field, s: Seq<char>)
    requires
        parse_section_body(f, s) is Some,
    ensures
        parse_section_body(f, s)->Some_0.1.len() < s.len(),
    decreases s.len(),
{
    if is_open(s) {
        let rest = s.skip(2);
        if rest.len() > 0 && rest[0] == '/' {
        } else if rest.len() > 0 && rest[0] == '{' {
            let body = rest.skip(1);
            let nl = name_len(body);
            lemma_section_remainder(f, body.skip(nl as int + 3));
        } else {
            let nl = name_len(rest);
            lemma_section_remainder(f, rest.skip(nl as int + 2));
        }
    } else {
        let l = lit_len(s);
        lemma_lit_len_bound(s);
        lemma_section_remainder(f, s.skip(l as int));
    }
}

/// Parse a whole template into items; `None` when it is malformed or
/// names an unrecognized field.
pub open spec fn parse_items(s: Seq<char>) -> Option<Seq<ItemV>>
    decreases s.len(),
    via parse_items_decreases
{
    if s.len() == 0 {
        Some(Seq::empty())
    } else if is_open(s) {
        let rest = s.skip(2);
        if rest.len() > 0 && rest[0] == '{' {
            let body = rest.skip(1);
            let nl = name_len(body);
            if nl > 0 && body.len() >= nl + 3 && body[nl as int] == '}' && body[nl as int + 1] == '}'
                && body[nl as int + 2] == '}' && field_of(body.take(nl as int)) is Some {
                let g = field_of(body.take(nl as int))->Some_0;
                match parse_items(body.skip(nl as int + 3)) {
                    Some(items) => Some(seq![ItemV::Var(g)] + items),
                    None => None,
                }
            } else {
                None
            }
        } else if rest.len() > 0 && rest[0] == '#' {
            let body = rest.skip(1);
            let nl = name_len(body);
            if nl > 0 && body.len() >= nl + 2 && body[nl as int] == '}' && body[nl as int + 1] == '}'
                && field_of(body.take(nl as int)) is Some {
                let g = field_of(body.take(nl as int))->Some_0;
                match parse_section_body(g, body.skip(nl as int + 2)) {
                    Some((ps, rem)) => match parse_items(rem) {
                        Some(items) => Some(seq![ItemV::Section(g, ps)] + items),
                        None => None,
                    },
                    None => None,
                }
            } else {
                None
            }
        } else if rest.len() > 0 && rest[0] != '/' {
            let nl = name_len(rest);
            if nl > 0 && rest.len() >= nl + 2 && rest[nl as int] == '}' && rest[nl as int + 1] == '}'
                && field_of(rest.take(nl as int)) is Some {
                let g = field_of(rest.take(nl as int))->Some_0;
                match parse_items(rest.skip(nl as int + 2)) {
                    Some(items) => Some(seq![ItemV::Var(g)] + items),
                    None => None,
                }
            } else {
                None
            }
        } else {
            None
        }
    } else {
        let l = lit_len(s);
        match parse_items(s.skip(l as int)) {
            Some(items) => Some(seq![ItemV::Lit(s.take(l as int))] + items),
            None => None,
        }
    }
}

/// The field values a template is rendered with.  Numeric fields are
/// handed in already formatted (zero-padded) by the caller.
pub struct RenderValues {
    pub artist: Option<String>,
    pub title: Option<String>,
    pub album: Option<String>,
    pub disc_number: Option<String>,
    pub track_number: Option<String>,
    pub src_dir: Option<String>,
}

/// The mathematical form of `RenderValues`.
pub struct RenderValuesV {
    pub artist: Option<Seq<char>>,
    pub title: Option<Seq<char>>,
    pub album: Option<Seq<char>>,
    pub disc_number: Option<Seq<char>>,
    pub track_number: Option<Seq<char>>,
    pub src_dir: Option<Seq<char>>,
}

impl View for RenderValues {
    type V = RenderValuesV;

    open spec fn view(&self) -> RenderValuesV {
        RenderValuesV {
            artist: self.artist.deep_view(),
            title: self.title.deep_view(),
            album: self.album.deep_view(),
            disc_number: self.disc_number.deep_view(),
            track_number: self.track_number.deep_view(),
            src_dir: self.src_dir.deep_view(),
        }
    }
}

/// The value a field holds, if any.
pub open spec fn field_get(v: RenderValuesV, f: Field) -> Option<Seq<char>> {
    match f {
        Field::Artist => v.artist,
        Field::Title => v.title,
        Field::Album => v.album,
        Field::DiscNumber => v.disc_number,
        Field::TrackNumber => v.track_number,
        Field::SrcDir => v.src_dir,
    }
}

/// What one piece renders to: its text, or the field's value, or nothing
/// when the field is absent.
pub open spec fn render_piece(p: PieceV, v: RenderValuesV) -> Seq<char> {
    match p {
        PieceV::Lit(s) => s,
        PieceV::Var(f) => match field_get(v, f) {
            Some(s) => s,
            None => Seq::empty(),
        },
    }
}

/// What a run of pieces renders to.
pub open spec fn render_pieces(ps: Seq<PieceV>, v: RenderValuesV) -> Seq<char>
    decreases ps.len(),
{
    if ps.len() == 0 {
        Seq::empty()
    } else {
        render_piece(ps[0], v) + render_pieces(ps.skip(1), v)
    }
}

/// What one item renders to; a section renders to nothing, its literal
/// text included, when its field is absent.
pub open spec fn render_item(it: ItemV, v: RenderValuesV) -> Seq<char> {
    match it {
        ItemV::Lit(s) => s,
        ItemV::Var(f) => match field_get(v, f) {
            Some(s) => s,
            None => Seq::empty(),
        },
        ItemV::Section(f, ps) => if field_get(v, f) is Some {
            render_pieces(ps, v)
        } else {
            Seq::empty()
        },
    }
}

/// What a whole template renders to.
pub open spec fn render_items(items: Seq<ItemV>, v: RenderValuesV) -> Seq<char>
    decreases items.len(),
{
    if items.len() == 0 {
        Seq::empty()
    } else {
        render_item(items[0], v) + render_items(items.skip(1), v)
    }
}

proof fn lemma_render_pieces_snoc(ps: Seq<PieceV>, p: PieceV, v: RenderValuesV)
    ensures
        render_pieces(ps.push(p), v) == render_pieces(ps, v) + render_piece(p, v),
    decreases ps.len(),
{
    if ps.len() == 0 {
        assert(ps.push(p)[0] == p);
        assert(ps.push(p).skip(1) =~= Seq::<PieceV>::empty());
        assert(render_pieces(Seq::<PieceV>::empty(), v) == Seq::<char>::empty());
        assert(render_pieces(ps.push(p), v) == render_piece(p, v) + Seq::<char>::empty());
        assert(render_piece(p, v) + Seq::<char>::empty() =~= render_pieces(ps, v) + render_piece(
            p,
            v,
        ));
    } else {
        assert(ps.push(p)[0] == ps[0]);
        assert(ps.push(p).skip(1) =~= ps.skip(1).push(p));
        lemma_render_pieces_snoc(ps.skip(1), p, v);
        assert(render_pieces(ps.push(p), v) == render_piece(ps[0], v) + (render_pieces(
            ps.skip(1),
            v,
        ) + render_piece(p, v)));
        assert(render_piece(ps[0], v) + (render_pieces(ps.skip(1), v) + render_piece(p, v)) =~= (
        render_piece(ps[0], v) + render_pieces(ps.skip(1), v)) + render_piece(p, v));
    }
}

proof fn lemma_render_items_snoc(items: Seq<ItemV>, it: ItemV, v: RenderValuesV)
    ensures
        render_items(items.push(it), v) == render_items(items, v) + render_item(it, v),
    decreases items.len(),
{
    if items.len() == 0 {
        assert(items.push(it)[0] == it);
        assert(items.push(it).skip(1) =~= Seq::<ItemV>::empty());
        assert(render_items(Seq::<ItemV>::empty(), v) == Seq::<char>::empty());
        assert(render_items(items.push(it), v) == render_item(it, v) + Seq::<char>::empty());
        assert(render_item(it, v) + Seq::<char>::empty() =~= render_items(items, v) + render_item(
            it,
            v,
        ));
    } else {
        assert(items.push(it)[0] == items[0]);
        assert(items.push(it).skip(1) =~= items.skip(1).push(it));
        lemma_render_items_snoc(items.skip(1), it, v);
        assert(render_items(items.push(it), v) == render_item(items[0], v) + (render_items(
            items.skip(1),
            v,
        ) + render_item(it, v)));
        assert(render_item(items[0], v) + (render_items(items.skip(1), v) + render_item(it, v))
            =~= (render_item(items[0], v) + render_items(items.skip(1), v)) + render_item(it, v));
    }
}

/// A section whose field is absent renders to nothing at all: its
/// substitutions and its literal text, separators included, are
/// suppressed together.
pub proof fn lemma_absent_section_renders_nothing(f: Field, ps: Seq<PieceV>, v: RenderValuesV)
    requires
        field_get(v, f) is None,
    ensures
        render_item(ItemV::Section(f, ps), v) == Seq::<char>::empty(),
{
}

fn field_ref<'a>(vals: &'a RenderValues, f: Field) -> (r: &'a Option<String>)
    ensures
        r.deep_view() == field_get(vals@, f),
{
    match f {
        Field::Artist => &vals.artist,
        Field::Title => &vals.title,
        Field::Album => &vals.album,
        Field::DiscNumber => &vals.disc_number,
        Field::TrackNumber => &vals.track_number,
        Field::SrcDir => &vals.src_dir,
    }
}

fn render_var(out: &mut Vec<char>, vals: &RenderValues, f: Field)
    ensures
        final(out)@ == old(out)@ + render_piece(PieceV::Var(f), vals@),
{
    let opt: &Option<String> = field_ref(vals, f);
    match opt {
        Some(s) => {
            let cs: Vec<char> = crate::text::chars_of(s.as_str());
            crate::text::extend_chars(out, &cs);
        },
        None => {
            proof {
                assert(out@ =~= out@ + Seq::<char>::empty());
            }
        },
    }
}

fn render_pieces_exec(ps: &Vec<Piece>, vals: &RenderValues, out: &mut Vec<char>)
    ensures
        final(out)@ == old(out)@ + render_pieces(pieces_view(ps@), vals@),
{
    let ghost pre = out@;
    let mut i: usize = 0;
    while i < ps.len()
        invariant
            i <= ps@.len(),
            out@ == pre + render_pieces(pieces_view(ps@).take(i as int), vals@),
        decreases ps@.len() - i,
    {
        match &ps[i] {
            Piece::Lit(s) => {
                crate::text::extend_chars(out, s);
            },
            Piece::Var(f) => {
                render_var(out, vals, *f);
            },
        }
        proof {
            assert(pieces_view(ps@).take(i + 1) =~= pieces_view(ps@).take(i as int).push(
                ps@[i as int]@,
            ));
            lemma_render_pieces_snoc(pieces_view(ps@).take(i as int), ps@[i as int]@, vals@);
        }
        i = i + 1;
    }
    proof {
        assert(pieces_view(ps@).take(ps@.len() as int) =~= pieces_view(ps@));
    }
}

impl Template {
    /// Render this template with the given field values.  Rendering is a
    /// pure function of the compiled template and the values, and cannot
    /// fail.
    pub fn render(&self, vals: &RenderValues) -> (r: String)
        ensures
            r@ == render_items(self@, vals@),
    {
        let mut out: Vec<char> = Vec::new();
        let ghost itemsv = items_view(self.items@);
        let mut i: usize = 0;
        while i < self.items.len()
            invariant
                i <= self.items@.len(),
                itemsv == items_view(self.items@),
                out@ == render_items(itemsv.take(i as int), vals@),
            decreases self.items@.len() - i,
        {
            match &self.items[i] {
                Item::Lit(s) => {
                    crate::text::extend_chars(&mut out, s);
                },
                Item::Var(f) => {
                    render_var(&mut out, vals, *f);
                },
                Item::Section(f, ps) => {
                    let opt: &Option<String> = field_ref(vals, *f);
                    let present: bool = match opt {
                        Some(_) => true,
                        None => false,
                    };
                    if present {
                        render_pieces_exec(ps, vals, &mut out);
                    }
                    proof {
                        assert(present == (field_get(vals@, *f) is Some));
                    }
                },
            }
            proof {
                assert(itemsv.take(i + 1) =~= itemsv.take(i as int).push(self.items@[i as int]@));
                lemma_render_items_snoc(itemsv.take(i as int), self.items@[i as int]@, vals@);
            }
            i = i + 1;
        }
        proof {
            assert(itemsv.take(self.items@.len() as int) =~= itemsv);
        }
        crate::text::string_of(&out)
    }
}

fn name_char_exec(c: char) -> (r: bool)
    ensures
        r == name_char(c),
{
    let u: u32 = c as u32;
    (97 <= u && u <= 122) || c == '_'
}

/// A run of `k` name characters stopped by something else (or the end) is
/// the opening name run.
proof fn lemma_name_len_at(s: Seq<char>, k: int)
    requires
        0 <= k <= s.len(),
        forall|j: int| 0 <= j < k ==> name_char(#[trigger] s[j]),
        k < s.len() ==> !name_char(s[k as int]),
    ensures
        name_len(s) == k,
    decreases k,
{
    if k > 0 {
        assert(forall|j: int| 0 <= j < k - 1 ==> s.skip(1)[j] == s[j + 1]);
        lemma_name_len_at(s.skip(1), k - 1);
    }
}

fn scan_name(v: &Vec<char>, i: usize) -> (l: usize)
    requires
        i <= v@.len(),
    ensures
        l == name_len(v@.skip(i as int)),
        i + l <= v@.len(),
{
    let n: usize = v.len();
    let mut k: usize = i;
    while k < n && name_char_exec(v[k])
        invariant
            i <= k <= n,
            n == v@.len(),
            forall|j: int| i <= j < k ==> name_char(#[trigger] v@[j]),
        decreases n - k,
    {
        k = k + 1;
    }
    proof {
        let s = v@.skip(i as int);
        assert(forall|j: int| 0 <= j < k - i ==> s[j] == v@[i + j]);
        lemma_name_len_at(s, k - i);
    }
    k - i
}

/// A stretch of `k` characters none of which opens a tag, stopped by a
/// tag opener or the end, is the opening literal run.
proof fn lemma_lit_len_at(s: Seq<char>, k: int)
    requires
        0 <= k <= s.len(),
        forall|j: int| 0 <= j < k ==> !is_open(#[trigger] s.skip(j)),
        k < s.len() ==> is_open(s.skip(k)),
    ensures
        lit_len(s) == k,
    decreases k,
{
    if k == 0 {
        if s.len() > 0 {
            assert(is_open(s.skip(0)));
            assert(s.skip(0) =~= s);
        }
    } else {
        assert(!is_open(s.skip(0)));
        assert(s.skip(0) =~= s);
        assert(forall|j: int| 0 <= j < k - 1 ==> s.skip(1).skip(j) =~= s.skip(j + 1));
        lemma_lit_len_at(s.skip(1), k - 1);
    }
}

fn scan_lit(v: &Vec<char>, i: usize) -> (l: usize)
    requires
        i <= v@.len(),
    ensures
        l == lit_len(v@.skip(i as int)),
        i + l <= v@.len(),
{
    let n: usize = v.len();
    let mut k: usize = i;
    while k < n && !(k + 1 < n && v[k] == '{' && v[k + 1] == '{')
        invariant
            i <= k <= n,
            n == v@.len(),
            forall|j: int| i <= j < k ==> !is_open(#[trigger] v@.skip(j)),
        decreases n - k,
    {
        proof {
            assert(v@.skip(k as int).len() == n - k);
            if v@.skip(k as int).len() >= 2 {
                assert(v@.skip(k as int)[0] == v@[k as int]);
                assert(v@.skip(k as int)[1] == v@[k as int + 1]);
            }
        }
        k = k + 1;
    }
    proof {
        let s = v@.skip(i as int);
        if k < n {
            assert(v@.skip(k as int)[0] == v@[k as int]);
            assert(v@.skip(k as int)[1] == v@[k as int + 1]);
            assert(is_open(v@.skip(k as int)));
        }
        assert(forall|j: int| 0 <= j < k - i ==> s.skip(j) =~= v@.skip(i + j));
        if k < n {
            assert(s.skip(k - i) =~= v@.skip(k as int));
        }
        lemma_lit_len_at(s, k - i);
    }
    k - i
}

fn field_of_exec(name: &Vec<char>) -> (r: Option<Field>)
    ensures
        r == field_of(name@),
{
    proof {
        reveal_strlit("artist");
        reveal_strlit("title");
        reveal_strlit("album");
        reveal_strlit("disc_number");
        reveal_strlit("track_number");
        reveal_strlit("src_dir");
        assert("artist"@ =~= seq!['a', 'r', 't', 'i', 's', 't']);
        assert("title"@ =~= seq!['t', 'i', 't', 'l', 'e']);
        assert("album"@ =~= seq!['a', 'l', 'b', 'u', 'm']);
        assert("disc_number"@ =~= seq!['d', 'i', 's', 'c', '_', 'n', 'u', 'm', 'b', 'e', 'r']);
        assert("track_number"@ =~= seq!['t', 'r', 'a', 'c', 'k', '_', 'n', 'u', 'm', 'b', 'e', 'r']);
        assert("src_dir"@ =~= seq!['s', 'r', 'c', '_', 'd', 'i', 'r']);
    }
    if crate::text::eq_chars(name, &crate::text::chars_of("artist")) {
        Some(Field::Artist)
    } else if crate::text::eq_chars(name, &crate::text::chars_of("title")) {
        Some(Field::Title)
    } else if crate::text::eq_chars(name, &crate::text::chars_of("album")) {
        Some(Field::Album)
    } else if crate::text::eq_chars(name, &crate::text::chars_of("disc_number")) {
        Some(Field::DiscNumber)
    } else if crate::text::eq_chars(name, &crate::text::chars_of("track_number")) {
        Some(Field::TrackNumber)
    } else if crate::text::eq_chars(name, &crate::text::chars_of("src_dir")) {
        Some(Field::SrcDir)
    } else {
        None
    }
}

#[verifier::rlimit(100)]
#[verifier::spinoff_prover]
fn parse_section_exec(f: Field, v: &Vec<char>, i: usize) -> (r: Option<(Vec<Piece>, usize)>)
    requires
        i <= v@.len(),
    ensures
        match r {
            Some(pair) => i < pair.1 <= v@.len() && parse_section_body(f, v@.skip(i as int))
                == Some((pieces_view(pair.0@), v@.skip(pair.1 as int))),
            None => parse_section_body(f, v@.skip(i as int)) is None,
        },
    decreases v@.len() - i,
{
    let ghost s = v@.skip(i as int);
    let n: usize = v.len();
    if i == n {
        return None;
    }
    let is_tag: bool = i + 1 < n && v[i] == '{' && v[i + 1] == '{';
    proof {
        assert(s.len() == n - i);
        if s.len() >= 2 {
            assert(s[0] == v@[i as int]);
            assert(s[1] == v@[i as int + 1]);
        }
        assert(is_tag == is_open(s));
    }
    if is_tag {
        let ghost rest = s.skip(2);
        proof {
            assert(rest =~= v@.skip(i as int + 2));
        }
        if i + 2 == n {
            return None;
        }
        let c: char = v[i + 2];
        proof {
            assert(rest[0] == v@[i as int + 2]);
        }
        if c == '/' {
            let ns: usize = i + 3;
            let ghost body = rest.skip(1);
            proof {
                assert(body =~= v@.skip(ns as int));
            }
            let nl: usize = scan_name(v, ns);
            if nl > 0 && ns + nl < n && ns + nl + 1 < n && v[ns + nl] == '}' && v[ns + nl + 1]
                == '}' {
                proof {
                    assert(body[nl as int] == v@[ns + nl]);
                    assert(body[nl as int + 1] == v@[ns + nl + 1]);
                }
                let name: Vec<char> = crate::text::subrange_chars(v, ns, ns + nl);
                proof {
                    assert(name@ =~= body.take(nl as int));
                }
                match field_of_exec(&name) {
                    Some(g) => {
                        if g == f {
                            proof {
                                assert(body.skip(nl as int + 2) =~= v@.skip(ns + nl + 2));
                                assert(pieces_view(Seq::<Piece>::empty()) =~= Seq::<
                                    PieceV,
                                >::empty());
                            }
                            Some((Vec::new(), ns + nl + 2))
                        } else {
                            None
                        }
                    },
                    None => None,
                }
            } else {
                None
            }
        } else if c == '{' {
            let ns: usize = i + 3;
            let ghost body = rest.skip(1);
            proof {
                assert(body =~= v@.skip(ns as int));
            }
            let nl: usize = scan_name(v, ns);
            if nl > 0 && ns + nl < n && ns + nl + 1 < n && ns + nl + 2 < n && v[ns + nl] == '}'
                && v[ns + nl + 1] == '}' && v[ns + nl + 2] == '}' {
                proof {
                    assert(body[nl as int] == v@[ns + nl]);
                    assert(body[nl as int + 1] == v@[ns + nl + 1]);
                    assert(body[nl as int + 2] == v@[ns + nl + 2]);
                }
                let name: Vec<char> = crate::text::subrange_chars(v, ns, ns + nl);
                proof {
                    assert(name@ =~= body.take(nl as int));
                }
                match field_of_exec(&name) {
                    Some(g) => {
                        proof {
                            assert(body.skip(nl as int + 3) =~= v@.skip(ns + nl + 3));
                        }
                        match parse_section_exec(f, v, ns + nl + 3) {
                            Some(pair) => {
                                let (ps2, j2) = pair;
                                let mut out: Vec<Piece> = Vec::new();
                                out.push(Piece::Var(g));
                                let mut tail: Vec<Piece> = ps2;
                                out.append(&mut tail);
                                proof {
                                    assert(pieces_view(out@) =~= seq![PieceV::Var(g)]
                                        + pieces_view(ps2@));
                                }
                                Some((out, j2))
                            },
                            None => None,
                        }
                    },
                    None => None,
                }
            } else {
                None
            }
        } else if c == '#' {
            None
        } else {
            let ns: usize = i + 2;
            let nl: usize = scan_name(v, ns);
            proof {
                assert(rest =~= v@.skip(ns as int));
            }
            if nl > 0 && ns + nl < n && ns + nl + 1 < n && v[ns + nl] == '}' && v[ns + nl + 1]
                == '}' {
                proof {
                    assert(rest[nl as int] == v@[ns + nl]);
                    assert(rest[nl as int + 1] == v@[ns + nl + 1]);
                }
                let name: Vec<char> = crate::text::subrange_chars(v, ns, ns + nl);
                proof {
                    assert(name@ =~= rest.take(nl as int));
                }
                match field_of_exec(&name) {
                    Some(g) => {
                        proof {
                            assert(rest.skip(nl as int + 2) =~= v@.skip(ns + nl + 2));
                        }
                        match parse_section_exec(f, v, ns + nl + 2) {
                            Some(pair) => {
                                let (ps2, j2) = pair;
                                let mut out: Vec<Piece> = Vec::new();
                                out.push(Piece::Var(g));
                                let mut tail: Vec<Piece> = ps2;
                                out.append(&mut tail);
                                proof {
                                    assert(pieces_view(out@) =~= seq![PieceV::Var(g)]
                                        + pieces_view(ps2@));
                                }
                                Some((out, j2))
                            },
                            None => None,
                        }
                    },
                    None => None,
                }
            } else {
                None
            }
        }
    } else {
        let l: usize = scan_lit(v, i);
        proof {
            lemma_lit_len_bound(s);
        }
        let lit: Vec<char> = crate::text::subrange_chars(v, i, i + l);
        proof {
            assert(lit@ =~= s.take(l as int));
            assert(s.skip(l as int) =~= v@.skip(i + l));
        }
        match parse_section_exec(f, v, i + l) {
            Some(pair) => {
                let (ps2, j2) = pair;
                let mut out: Vec<Piece> = Vec::new();
                out.push(Piece::Lit(lit));
                let mut tail: Vec<Piece> = ps2;
                out.append(&mut tail);
                proof {
                    assert(pieces_view(out@) =~= seq![PieceV::Lit(s.take(l as int))]
                        + pieces_view(ps2@));
                }
                Some((out, j2))
            },
            None => None,
        }
    }
}

#[verifier::rlimit(100)]
#[verifier::spinoff_prover]
fn parse_items_exec(v: &Vec<char>, i: usize) -> (r: Option<Vec<Item>>)
    requires
        i <= v@.len(),
    ensures
        match r {
            Some(items) => parse_items(v@.skip(i as int)) == Some(items_view(items@)),
            None => parse_items(v@.skip(i as int)) is None,
        },
    decreases v@.len() - i,
{
    let ghost s = v@.skip(i as int);
    let n: usize = v.len();
    if i == n {
        proof {
            assert(items_view(Seq::<Item>::empty()) =~= Seq::<ItemV>::empty());
        }
        return Some(Vec::new());
    }
    let is_tag: bool = i + 1 < n && v[i] == '{' && v[i + 1] == '{';
    proof {
        assert(s.len() == n - i);
        if s.len() >= 2 {
            assert(s[0] == v@[i as int]);
            assert(s[1] == v@[i as int + 1]);
        }
        assert(is_tag == is_open(s));
    }
    if is_tag {
        let ghost rest = s.skip(2);
        proof {
            assert(rest =~= v@.skip(i as int + 2));
        }
        if i + 2 == n {
            return None;
        }
        let c: char = v[i + 2];
        proof {
            assert(rest[0] == v@[i as int + 2]);
        }
        if c == '{' {
            let ns: usize = i + 3;
            let ghost body = rest.skip(1);
            proof {
                assert(body =~= v@.skip(ns as int));
            }
            let nl: usize = scan_name(v, ns);
            if nl > 0 && ns + nl < n && ns + nl + 1 < n && ns + nl + 2 < n && v[ns + nl] == '}'
                && v[ns + nl + 1] == '}' && v[ns + nl + 2] == '}' {
                proof {
                    assert(body[nl as int] == v@[ns + nl]);
                    assert(body[nl as int + 1] == v@[ns + nl + 1]);
                    assert(body[nl as int + 2] == v@[ns + nl + 2]);
                }
                let name: Vec<char> = crate::text::subrange_chars(v, ns, ns + nl);
                proof {
                    assert(name@ =~= body.take(nl as int));
                }
                match field_of_exec(&name) {
                    Some(g) => {
                        proof {
                            assert(body.skip(nl as int + 3) =~= v@.skip(ns + nl + 3));
                        }
                        match parse_items_exec(v, ns + nl + 3) {
                            Some(tail) => {
                                let mut out: Vec<Item> = Vec::new();
                                out.push(Item::Var(g));
                                let mut t: Vec<Item> = tail;
                                let ghost tailv = items_view(t@);
                                out.append(&mut t);
                                proof {
                                    assert(items_view(out@) =~= seq![ItemV::Var(g)] + tailv);
                                }
                                Some(out)
                            },
                            None => None,
                        }
                    },
                    None => None,
                }
            } else {
                None
            }
        } else if c == '#' {
            let ns: usize = i + 3;
            let ghost body = rest.skip(1);
            proof {
                assert(body =~= v@.skip(ns as int));
            }
            let nl: usize = scan_name(v, ns);
            if nl > 0 && ns + nl < n && ns + nl + 1 < n && v[ns + nl] == '}' && v[ns + nl + 1]
                == '}' {
                proof {
                    assert(body[nl as int] == v@[ns + nl]);
                    assert(body[nl as int + 1] == v@[ns + nl + 1]);
                }
                let name: Vec<char> = crate::text::subrange_chars(v, ns, ns + nl);
                proof {
                    assert(name@ =~= body.take(nl as int));
                }
                match field_of_exec(&name) {
                    Some(g) => {
                        proof {
                            assert(body.skip(nl as int + 2) =~= v@.skip(ns + nl + 2));
                        }
                        match parse_section_exec(g, v, ns + nl + 2) {
                            Some(pair) => {
                                let (ps, j2) = pair;
                                match parse_items_exec(v, j2) {
                                    Some(tail) => {
                                        let mut out: Vec<Item> = Vec::new();
                                        out.push(Item::Section(g, ps));
                                        let mut t: Vec<Item> = tail;
                                        let ghost tailv = items_view(t@);
                                        let ghost psv = pieces_view(pair.0@);
                                        out.append(&mut t);
                                        proof {
                                            assert(items_view(out@) =~= seq![
                                                ItemV::Section(g, psv),
                                            ] + tailv);
                                        }
                                        Some(out)
                                    },
                                    None => None,
                                }
                            },
                            None => None,
                        }
                    },
                    None => None,
                }
            } else {
                None
            }
        } else if c == '/' {
            None
        } else {
            let ns: usize = i + 2;
            let nl: usize = scan_name(v, ns);
            proof {
                assert(rest =~= v@.skip(ns as int));
            }
            if nl > 0 && ns + nl < n && ns + nl + 1 < n && v[ns + nl] == '}' && v[ns + nl + 1]
                == '}' {
                proof {
                    assert(rest[nl as int] == v@[ns + nl]);
                    assert(rest[nl as int + 1] == v@[ns + nl + 1]);
                }
                let name: Vec<char> = crate::text::subrange_chars(v, ns, ns + nl);
                proof {
                    assert(name@ =~= rest.take(nl as int));
                }
                match field_of_exec(&name) {
                    Some(g) => {
                        proof {
                            assert(rest.skip(nl as int + 2) =~= v@.skip(ns + nl + 2));
                        }
                        match parse_items_exec(v, ns + nl + 2) {
                            Some(tail) => {
                                let mut out: Vec<Item> = Vec::new();
                                out.push(Item::Var(g));
                                let mut t: Vec<Item> = tail;
                                let ghost tailv = items_view(t@);
                                out.append(&mut t);
                                proof {
                                    assert(items_view(out@) =~= seq![ItemV::Var(g)] + tailv);
                                }
                                Some(out)
                            },
                            None => None,
                        }
                    },
                    None => None,
                }
            } else {
                None
            }
        }
    } else {
        let l: usize = scan_lit(v, i);
        proof {
            lemma_lit_len_bound(s);
        }
        let lit: Vec<char> = crate::text::subrange_chars(v, i, i + l);
        proof {
            assert(lit@ =~= s.take(l as int));
            assert(s.skip(l as int) =~= v@.skip(i + l));
        }
        match parse_items_exec(v, i + l) {
            Some(tail) => {
                let mut out: Vec<Item> = Vec::new();
                out.push(Item::Lit(lit));
                let mut t: Vec<Item> = tail;
                let ghost tailv = items_view(t@);
                out.append(&mut t);
                proof {
                    assert(items_view(out@) =~= seq![ItemV::Lit(s.take(l as int))] + tailv);
                }
                Some(out)
            },
            None => None,
        }
    }
}

/// Compile a template string.  Compilation succeeds exactly when the
/// template parses, and the compiled items are that parse.
pub fn compile_template(template: &str) -> (r: Result<Template, TemplateError>)
    ensures
        r is Ok <==> parse_items(template@) is Some,
        r matches Ok(t) ==> parse_items(template@) == Some(t@),
{
    let v: Vec<char> = crate::text::chars_of(template);
    proof {
        assert(v@.skip(0) =~= template@);
    }
    match parse_items_exec(&v, 0) {
        Some(items) => Ok(Template { items }),
        None => Err(TemplateError::Compile),
    }
}

/// Compile and render in one step: the spec-level rendering of a template
/// string with the given values.
pub fn render_template_str(template: &str, vals: &RenderValues) -> (r: Result<
    String,
    TemplateError,
>)
    ensures
        r is Ok <==> parse_items(template@) is Some,
        r matches Ok(out) ==> out@ == render_items(parse_items(template@)->Some_0, vals@),
{
    match compile_template(template) {
        Ok(t) => Ok(t.render(vals)),
        Err(e) => Err(e),
    }
}

#[via_fn]
proof fn parse_items_decreases(s: Seq<char>) {
    if s.len() > 0 && !is_open(s) {
        lemma_lit_len_bound(s);
    }
    if s.len() > 0 && is_open(s) {
        let rest = s.skip(2);
        if rest.len() > 0 && rest[0] == '#' {
            let body = rest.skip(1);
            let nl = name_len(body);
            if nl > 0 && body.len() >= nl + 2 && body[nl as int] == '}' && body[nl as int + 1] == '}'
                && field_of(body.take(nl as int)) is Some {
                let g = field_of(body.take(nl as int))->Some_0;
                if parse_section_body(g, body.skip(nl as int + 2)) is Some {
                    lemma_section_remainder(g, body.skip(nl as int + 2));
                }
            }
        }
    }
}

} // verus!
