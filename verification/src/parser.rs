//! The document parser: text in, validated tree out.
//!
//! A document is read line by line. `E<digits>. <text>` declares an entity,
//! `L<digits>. <expr> → <expr> [→ <expr> ...]` declares a link, and every
//! other line (blank lines, headings) carries no structure. When all lines
//! are read, every entity that a link refers to must have been declared.

use vstd::prelude::*;
use std::collections::BTreeMap;
use crate::expr::{
    digit_run, expr_views, lex, parse_tokens_spec, scan_digits, tokenize_chars, Expr,
    ExprParseError, ExprParser, ExprView, LexError, LexErrorView,
};
use crate::text::{
    chars_of, parse_u32, parse_u32_spec, pieces, split, split_on, string_of, subrange, trim,
    trimmed,
};

verus! {

broadcast use vstd::std_specs::btree::group_btree_axioms;

// ---------------------------------------------------------------------
// The tree
// ---------------------------------------------------------------------

/// A node of the causal graph.
#[derive(Debug, Clone, PartialEq, Eq)]
pub struct Entity {
    pub id: u32,
    pub text: String,
}

pub struct EntityView {
    pub id: u32,
    pub text: Seq<char>,
}

impl View for Entity {
    type V = EntityView;

    open spec fn view(&self) -> EntityView {
        EntityView { id: self.id, text: self.text@ }
    }
}

/// A causal chain: each segment leads to the next.
#[derive(Debug, PartialEq, Eq)]
pub struct Link {
    pub id: u32,
    pub segments: Vec<Expr>,
}

pub struct LinkView {
    pub id: u32,
    pub segments: Seq<ExprView>,
}

impl View for Link {
    type V = LinkView;

    open spec fn view(&self) -> LinkView {
        LinkView { id: self.id, segments: expr_views(self.segments@) }
    }
}

impl Clone for Link {
    fn clone(&self) -> (out: Self)
        ensures
            out@ == self@,
    {
        let mut segments: Vec<Expr> = Vec::new();
        let mut i: usize = 0;
        while i < self.segments.len()
            invariant
                i <= self.segments.len(),
                segments.len() == i,
                forall|j: int| 0 <= j < i ==> (#[trigger] segments@[j])@ == self.segments@[j]@,
            decreases self.segments.len() - i,
        {
            segments.push(self.segments[i].clone());
            i += 1;
        }
        assert(expr_views(segments@) =~= expr_views(self.segments@));
        Link { id: self.id, segments }
    }
}

/// A parsed document. Entities are keyed by their number; links stand in the
/// order in which the document declares them.
#[derive(Debug, Clone, PartialEq, Eq)]
pub struct CRT {
    pub entities: BTreeMap<u32, Entity>,
    pub links: Vec<Link>,
}

pub struct TreeView {
    pub entities: Map<u32, EntityView>,
    pub links: Seq<LinkView>,
}

pub open spec fn entity_views(m: Map<u32, Entity>) -> Map<u32, EntityView> {
    Map::new(|k: u32| m.contains_key(k), |k: u32| m[k]@)
}

pub open spec fn link_views(links: Seq<Link>) -> Seq<LinkView> {
    Seq::new(links.len(), |i: int| links[i]@)
}

impl View for CRT {
    type V = TreeView;

    open spec fn view(&self) -> TreeView {
        TreeView { entities: entity_views(self.entities@), links: link_views(self.links@) }
    }
}

/// The entity numbers that `e` mentions, left to right.
pub open spec fn refs(e: ExprView) -> Seq<u32>
    decreases e, 0nat,
{
    match e {
        ExprView::EntityRef(id) => seq![id],
        ExprView::Not(inner) => refs(*inner),
        ExprView::And(items) => refs_upto(items, items.len()),
    }
}

/// The entity numbers that the first `n` of `items` mention.
pub open spec fn refs_upto(items: Seq<ExprView>, n: nat) -> Seq<u32>
    decreases items, n,
{
    if n == 0 || n > items.len() {
        Seq::empty()
    } else {
        refs_upto(items, (n - 1) as nat) + refs(items[n - 1])
    }
}

/// The entity numbers that a link mentions, segment by segment.
pub open spec fn link_refs(link: LinkView) -> Seq<u32> {
    refs_upto(link.segments, link.segments.len())
}

/// The first of `ids` that `known` lacks.
pub open spec fn first_missing(ids: Seq<u32>, known: Set<u32>) -> Option<u32>
    decreases ids.len(),
{
    if ids.len() == 0 {
        None
    } else {
        match first_missing(ids.drop_last(), known) {
            Some(id) => Some(id),
            None => if known.contains(ids.last()) {
                None
            } else {
                Some(ids.last())
            },
        }
    }
}

/// The first reference, in document order, to an entity that is not
/// declared: the link's number and the entity's.
pub open spec fn first_undefined(links: Seq<LinkView>, known: Set<u32>) -> Option<(u32, u32)>
    decreases links.len(),
{
    if links.len() == 0 {
        None
    } else {
        match first_undefined(links.drop_last(), known) {
            Some(found) => Some(found),
            None => match first_missing(link_refs(links.last()), known) {
                Some(id) => Some((links.last().id, id)),
                None => None,
            },
        }
    }
}

/// Whether some link in `links` has the number `id`.
pub open spec fn has_link(links: Seq<LinkView>, id: u32) -> bool {
    exists|i: int| 0 <= i < links.len() && (#[trigger] links[i]).id == id
}

impl TreeView {
    /// The tree of the empty document.
    pub open spec fn empty() -> TreeView {
        TreeView { entities: Map::empty(), links: Seq::empty() }
    }

    /// What a validated tree promises: every entity stands under its own
    /// number with text that is not empty, no two links share a number, every
    /// link has at least two segments, and every reference is declared.
    pub open spec fn wf(self) -> bool {
        &&& forall|k: u32|
            self.entities.contains_key(k) ==> (#[trigger] self.entities[k]).id == k
                && self.entities[k].text.len() > 0
        &&& forall|i: int, j: int|
            0 <= i < j < self.links.len() ==> (#[trigger] self.links[i]).id != (
            #[trigger] self.links[j]).id
        &&& forall|i: int|
            0 <= i < self.links.len() ==> (#[trigger] self.links[i]).segments.len() >= 2
        &&& first_undefined(self.links, self.entities.dom()) is None
    }
}

// ---------------------------------------------------------------------
// Errors
// ---------------------------------------------------------------------

/// Why a document is rejected.
#[derive(Debug, Clone, PartialEq, Eq)]
pub enum ParseError {
    /// An endpoint expression holds text that is no token.
    LexError(LexError),
    /// An endpoint expression does not follow the grammar.
    ExprParseError(ExprParseError),
    /// A second declaration of this entity.
    DuplicateEntity(u32),
    /// A second declaration of this link.
    DuplicateLink(u32),
    /// A line that is no link declaration, or one with fewer than two
    /// expressions; carries the line.
    MalformedLink(String),
    /// A line that is no entity declaration; carries the line.
    MalformedEntity(String),
    /// An entity declared without text.
    EmptyEntityText(u32),
    /// An entity or link number that does not fit 32 bits; carries the digits.
    InvalidId(String),
    /// The link, and the entity it mentions that no line declares.
    UndefinedEntityReference(u32, u32),
}

pub enum ParseErrorView {
    LexError(LexErrorView),
    ExprParseError(ExprParseError),
    DuplicateEntity(u32),
    DuplicateLink(u32),
    MalformedLink(Seq<char>),
    MalformedEntity(Seq<char>),
    EmptyEntityText(u32),
    InvalidId(Seq<char>),
    UndefinedEntityReference(u32, u32),
}

impl View for ParseError {
    type V = ParseErrorView;

    open spec fn view(&self) -> ParseErrorView {
        match self {
            ParseError::LexError(e) => ParseErrorView::LexError(e@),
            ParseError::ExprParseError(e) => ParseErrorView::ExprParseError(*e),
            ParseError::DuplicateEntity(id) => ParseErrorView::DuplicateEntity(*id),
            ParseError::DuplicateLink(id) => ParseErrorView::DuplicateLink(*id),
            ParseError::MalformedLink(line) => ParseErrorView::MalformedLink(line@),
            ParseError::MalformedEntity(line) => ParseErrorView::MalformedEntity(line@),
            ParseError::EmptyEntityText(id) => ParseErrorView::EmptyEntityText(*id),
            ParseError::InvalidId(digits) => ParseErrorView::InvalidId(digits@),
            ParseError::UndefinedEntityReference(link, entity) =>
                ParseErrorView::UndefinedEntityReference(*link, *entity),
        }
    }
}

// ---------------------------------------------------------------------
// Lines
// ---------------------------------------------------------------------

/// What a line declares, by its shape alone.
pub enum LineShape {
    /// A blank line or a heading.
    Plain,
    /// `E<digits>.` and what follows the dot.
    Entity { digits: Seq<char>, rest: Seq<char> },
    /// `L<digits>.` and what follows the dot.
    Link { digits: Seq<char>, rest: Seq<char> },
}

/// The shape of a line: a declaration starts, after optional white space,
/// with `E` or `L`, one or more digits and a dot.
pub open spec fn line_shape(line: Seq<char>) -> LineShape {
    let t = trimmed(line);
    if t.len() > 0 && (t[0] == 'E' || t[0] == 'L') {
        let k = digit_run(t.drop_first()) as int;
        if k > 0 && 1 + k < t.len() && t[1 + k] == '.' {
            let digits = t.subrange(1, 1 + k);
            let rest = t.skip(2 + k);
            if t[0] == 'E' {
                LineShape::Entity { digits, rest }
            } else {
                LineShape::Link { digits, rest }
            }
        } else {
            LineShape::Plain
        }
    } else {
        LineShape::Plain
    }
}

/// Where the comment of an expression starts: at the first `//`, or at the
/// end where there is none.
pub open spec fn comment_start(s: Seq<char>) -> int
    decreases s.len(),
{
    if s.len() < 2 {
        s.len() as int
    } else if s[0] == '/' && s[1] == '/' {
        0
    } else {
        1 + comment_start(s.drop_first())
    }
}

/// The expression that a piece of text writes: the text up to a `//`
/// comment, trimmed, lexed and parsed.
pub open spec fn expr_of_text(s: Seq<char>) -> Result<ExprView, ParseErrorView> {
    let t = trimmed(s.take(comment_start(s)));
    if t.len() == 0 {
        Err(ParseErrorView::ExprParseError(ExprParseError::EmptyExpression))
    } else {
        match lex(t) {
            Err(e) => Err(ParseErrorView::LexError(e)),
            Ok(tokens) => match parse_tokens_spec(tokens) {
                Err(e) => Err(ParseErrorView::ExprParseError(e)),
                Ok(e) => Ok(e),
            },
        }
    }
}

/// The expressions that the pieces `texts` write, or the first error.
pub open spec fn exprs_of_texts(texts: Seq<Seq<char>>) -> Result<Seq<ExprView>, ParseErrorView>
    decreases texts.len(),
{
    if texts.len() == 0 {
        Ok(Seq::empty())
    } else {
        match exprs_of_texts(texts.drop_last()) {
            Err(e) => Err(e),
            Ok(done) => match expr_of_text(texts.last()) {
                Err(e) => Err(e),
                Ok(e) => Ok(done.push(e)),
            },
        }
    }
}

/// The entity that a line declares: its number and its trimmed text.
pub open spec fn entity_of_line(line: Seq<char>) -> Result<EntityView, ParseErrorView> {
    match line_shape(line) {
        LineShape::Entity { digits, rest } => match parse_u32_spec(digits) {
            None => Err(ParseErrorView::InvalidId(digits)),
            Some(id) => if trimmed(rest).len() == 0 {
                Err(ParseErrorView::EmptyEntityText(id))
            } else {
                Ok(EntityView { id, text: trimmed(rest) })
            },
        },
        _ => Err(ParseErrorView::MalformedEntity(trimmed(line))),
    }
}

/// The link that a line declares: its number and its expressions, which the
/// arrow `→` separates.
pub open spec fn link_of_line(line: Seq<char>) -> Result<LinkView, ParseErrorView> {
    match line_shape(line) {
        LineShape::Link { digits, rest } => match parse_u32_spec(digits) {
            None => Err(ParseErrorView::InvalidId(digits)),
            Some(id) => if split(rest, '→').len() < 2 {
                Err(ParseErrorView::MalformedLink(trimmed(line)))
            } else {
                match exprs_of_texts(split(rest, '→')) {
                    Err(e) => Err(e),
                    Ok(segments) => Ok(LinkView { id, segments }),
                }
            },
        },
        _ => Err(ParseErrorView::MalformedLink(trimmed(line))),
    }
}

/// The tree after one more line.
pub open spec fn add_line(tree: TreeView, line: Seq<char>) -> Result<TreeView, ParseErrorView> {
    match line_shape(line) {
        LineShape::Plain => Ok(tree),
        LineShape::Entity { .. } => match entity_of_line(line) {
            Err(e) => Err(e),
            Ok(entity) => if tree.entities.contains_key(entity.id) {
                Err(ParseErrorView::DuplicateEntity(entity.id))
            } else {
                Ok(TreeView { entities: tree.entities.insert(entity.id, entity), ..tree })
            },
        },
        LineShape::Link { .. } => match link_of_line(line) {
            Err(e) => Err(e),
            Ok(link) => if has_link(tree.links, link.id) {
                Err(ParseErrorView::DuplicateLink(link.id))
            } else {
                Ok(TreeView { links: tree.links.push(link), ..tree })
            },
        },
    }
}

/// The tree that the lines declare, or the first error among them.
pub open spec fn parse_lines(lines: Seq<Seq<char>>) -> Result<TreeView, ParseErrorView>
    decreases lines.len(),
{
    if lines.len() == 0 {
        Ok(TreeView::empty())
    } else {
        match parse_lines(lines.drop_last()) {
            Err(e) => Err(e),
            Ok(tree) => add_line(tree, lines.last()),
        }
    }
}

/// What a document parses to: the tree of its lines, provided that every
/// entity a link mentions is declared somewhere in the document.
pub open spec fn parse_document(text: Seq<char>) -> Result<TreeView, ParseErrorView> {
    match parse_lines(split(text, '\n')) {
        Err(e) => Err(e),
        Ok(tree) => match first_undefined(tree.links, tree.entities.dom()) {
            Some((link, entity)) => Err(ParseErrorView::UndefinedEntityReference(link, entity)),
            None => Ok(tree),
        },
    }
}

// ---------------------------------------------------------------------
// Reading
// ---------------------------------------------------------------------

/// A line, cut by its shape.
pub enum Line {
    Plain,
    Entity { digits: Vec<char>, rest: Vec<char> },
    Link { digits: Vec<char>, rest: Vec<char> },
}

impl View for Line {
    type V = LineShape;

    open spec fn view(&self) -> LineShape {
        match self {
            Line::Plain => LineShape::Plain,
            Line::Entity { digits, rest } => LineShape::Entity { digits: digits@, rest: rest@ },
            Line::Link { digits, rest } => LineShape::Link { digits: digits@, rest: rest@ },
        }
    }
}

/// Cuts a line into the parts that its shape names.
pub fn read_line(line: &Vec<char>) -> (out: Line)
    ensures
        out@ == line_shape(line@),
{
    let t = trim(line);
    if t.len() == 0 {
        return Line::Plain;
    }
    let first = t[0];
    if first != 'E' && first != 'L' {
        return Line::Plain;
    }
    let end = scan_digits(&t, 1);
    assert(t@.skip(1) == t@.drop_first());
    if end == 1 || end >= t.len() || t[end] != '.' {
        return Line::Plain;
    }
    let digits = subrange(&t, 1, end);
    let rest = subrange(&t, end + 1, t.len());
    assert(rest@ == t@.skip(end + 1));
    if first == 'E' {
        Line::Entity { digits, rest }
    } else {
        Line::Link { digits, rest }
    }
}

/// Where the first `//` of `v` starts, or the length of `v`.
fn find_comment(v: &Vec<char>) -> (at: usize)
    ensures
        at <= v.len(),
        at == comment_start(v@),
{
    let n = v.len();
    let mut at: usize = 0;
    assert(v@.skip(0) == v@);
    while n - at >= 2 && !(v[at] == '/' && v[at + 1] == '/')
        invariant
            at <= n == v.len(),
            comment_start(v@) == at + comment_start(v@.skip(at as int)),
        decreases n - at,
    {
        assert(v@.skip(at as int)[0] == v@[at as int]);
        assert(v@.skip(at as int)[1] == v@[at + 1]);
        assert(v@.skip(at as int).drop_first() == v@.skip(at + 1));
        at += 1;
    }
    proof {
        if n - at >= 2 {
            assert(v@.skip(at as int)[0] == v@[at as int]);
            assert(v@.skip(at as int)[1] == v@[at + 1]);
        }
    }
    if n - at >= 2 {
        at
    } else {
        n
    }
}

/// [`parse_expr`] on text that is already split into characters.
pub fn parse_expr_chars(text: &Vec<char>) -> (out: Result<Expr, ParseError>)
    ensures
        match out {
            Ok(e) => expr_of_text(text@) == Ok::<_, ParseErrorView>(e@),
            Err(err) => expr_of_text(text@) == Err::<ExprView, _>(err@),
        },
{
    let cut = find_comment(text);
    let before = subrange(text, 0, cut);
    let t = trim(&before);
    if t.len() == 0 {
        return Err(ParseError::ExprParseError(ExprParseError::EmptyExpression));
    }
    let tokens = match tokenize_chars(&t) {
        Ok(tokens) => tokens,
        Err(e) => {
            return Err(ParseError::LexError(e));
        },
    };
    match ExprParser::new(tokens).parse() {
        Ok(e) => Ok(e),
        Err(e) => Err(ParseError::ExprParseError(e)),
    }
}

/// Parses one endpoint expression. A `//` starts a comment that runs to the
/// end of the text; white space around the expression is ignored.
pub fn parse_expr(text: &str) -> (out: Result<Expr, ParseError>)
    ensures
        match out {
            Ok(e) => expr_of_text(text@) == Ok::<_, ParseErrorView>(e@),
            Err(err) => expr_of_text(text@) == Err::<ExprView, _>(err@),
        },
{
    let chars = chars_of(text);
    parse_expr_chars(&chars)
}

/// [`parse_entity_line`] on a line that is already split into characters.
pub fn parse_entity_line_chars(line: &Vec<char>) -> (out: Result<(u32, String), ParseError>)
    ensures
        match out {
            Ok((id, text)) => entity_of_line(line@) == Ok::<_, ParseErrorView>(
                EntityView { id, text: text@ },
            ),
            Err(err) => entity_of_line(line@) == Err::<EntityView, _>(err@),
        },
{
    match read_line(line) {
        Line::Entity { digits, rest } => {
            let id = match parse_u32(&digits) {
                Some(id) => id,
                None => {
                    return Err(ParseError::InvalidId(string_of(&digits)));
                },
            };
            let text = trim(&rest);
            if text.len() == 0 {
                return Err(ParseError::EmptyEntityText(id));
            }
            Ok((id, string_of(&text)))
        },
        _ => Err(ParseError::MalformedEntity(string_of(&trim(line)))),
    }
}

/// Parses an entity declaration `E<digits>. <text>` into the entity's number
/// and its text, which must not be empty.
pub fn parse_entity_line(line: &str) -> (out: Result<(u32, String), ParseError>)
    ensures
        match out {
            Ok((id, text)) => entity_of_line(line@) == Ok::<_, ParseErrorView>(
                EntityView { id, text: text@ },
            ),
            Err(err) => entity_of_line(line@) == Err::<EntityView, _>(err@),
        },
{
    let chars = chars_of(line);
    parse_entity_line_chars(&chars)
}

/// [`parse_link_line`] on a line that is already split into characters.
#[verifier::loop_isolation(false)]
pub fn parse_link_line_chars(line: &Vec<char>) -> (out: Result<Link, ParseError>)
    ensures
        match out {
            Ok(link) => link_of_line(line@) == Ok::<_, ParseErrorView>(link@),
            Err(err) => link_of_line(line@) == Err::<LinkView, _>(err@),
        },
{
    match read_line(line) {
        Line::Link { digits, rest } => {
            let id = match parse_u32(&digits) {
                Some(id) => id,
                None => {
                    return Err(ParseError::InvalidId(string_of(&digits)));
                },
            };
            let texts = split_on(&rest, '→');
            if texts.len() < 2 {
                return Err(ParseError::MalformedLink(string_of(&trim(line))));
            }
            let mut segments: Vec<Expr> = Vec::new();
            let mut i: usize = 0;
            assert(pieces(texts@).take(0) == Seq::<Seq<char>>::empty());
            assert(expr_views(segments@) == Seq::<ExprView>::empty());
            while i < texts.len()
                invariant
                    i <= texts.len(),
                    exprs_of_texts(pieces(texts@).take(i as int)) == Ok::<_, ParseErrorView>(
                        expr_views(segments@),
                    ),
                decreases texts.len() - i,
            {
                let ghost done = pieces(texts@).take(i as int);
                let ghost next = pieces(texts@).take(i + 1);
                let ghost before = expr_views(segments@);
                assert(next.drop_last() == done);
                assert(next.last() == texts@[i as int]@);
                match parse_expr_chars(&texts[i]) {
                    Ok(e) => {
                        segments.push(e);
                        assert(expr_views(segments@) == before.push(e@));
                    },
                    Err(err) => {
                        proof {
                            lemma_exprs_of_texts_error(pieces(texts@), i + 1);
                        }
                        return Err(err);
                    },
                }
                i += 1;
            }
            assert(pieces(texts@).take(texts.len() as int) == pieces(texts@));
            Ok(Link { id, segments })
        },
        _ => Err(ParseError::MalformedLink(string_of(&trim(line)))),
    }
}

/// An error among the first pieces is the error of the whole.
proof fn lemma_exprs_of_texts_error(texts: Seq<Seq<char>>, k: int)
    requires
        0 <= k <= texts.len(),
        exprs_of_texts(texts.take(k)) is Err,
    ensures
        exprs_of_texts(texts) == exprs_of_texts(texts.take(k)),
    decreases texts.len() - k,
{
    if k == texts.len() {
        assert(texts.take(k) == texts);
    } else {
        assert(texts.take(k + 1).drop_last() == texts.take(k));
        lemma_exprs_of_texts_error(texts, k + 1);
    }
}

/// Parses a link declaration `L<digits>. <expr> → <expr> [→ <expr> ...]`.
pub fn parse_link_line(line: &str) -> (out: Result<Link, ParseError>)
    ensures
        match out {
            Ok(link) => link_of_line(line@) == Ok::<_, ParseErrorView>(link@),
            Err(err) => link_of_line(line@) == Err::<LinkView, _>(err@),
        },
{
    let chars = chars_of(line);
    parse_link_line_chars(&chars)
}

/// Appends to `out` the entity numbers that `expr` mentions.
fn collect_refs(expr: &Expr, out: &mut Vec<u32>)
    ensures
        final(out)@ == old(out)@ + refs(expr@),
    decreases expr,
{
    match expr {
        Expr::EntityRef(id) => {
            out.push(*id);
            assert(old(out)@.push(*id) == old(out)@ + seq![*id]);
        },
        Expr::Not(inner) => {
            collect_refs(inner, out);
        },
        Expr::And(items) => {
            let ghost views = expr@->And_0;
            let mut i: usize = 0;
            assert(old(out)@ + Seq::<u32>::empty() == old(out)@);
            while i < items.len()
                invariant
                    i <= items.len(),
                    decreases_to!(*expr => *items),
                    views.len() == items.len(),
                    forall|j: int| 0 <= j < items.len() ==> views[j] == (#[trigger] items@[j])@,
                    out@ == old(out)@ + refs_upto(views, i as nat),
                decreases items.len() - i,
            {
                let ghost sofar = refs_upto(views, i as nat);
                collect_refs(&items[i], out);
                assert(old(out)@ + sofar + refs(views[i as int]) == old(out)@ + (sofar + refs(
                    views[i as int],
                )));
                i += 1;
            }
        },
    }
}

/// Whether one of `links` has the number `id`.
fn contains_link(links: &Vec<Link>, id: u32) -> (found: bool)
    ensures
        found == has_link(link_views(links@), id),
{
    let mut i: usize = 0;
    while i < links.len()
        invariant
            i <= links.len(),
            forall|j: int| 0 <= j < i ==> (#[trigger] link_views(links@)[j]).id != id,
        decreases links.len() - i,
    {
        if links[i].id == id {
            assert(link_views(links@)[i as int].id == id);
            return true;
        }
        i += 1;
    }
    false
}

/// Checks that every entity that a link mentions is declared.
///
/// The error names the first undeclared reference in document order.
#[verifier::loop_isolation(false)]
pub fn validate_refs(entities: &BTreeMap<u32, Entity>, links: &Vec<Link>) -> (out: Result<
    (),
    ParseError,
>)
    ensures
        match out {
            Ok(_) => first_undefined(link_views(links@), entities@.dom()) is None,
            Err(err) => first_undefined(link_views(links@), entities@.dom()) matches Some(
                (link, entity),
            ) && err == ParseError::UndefinedEntityReference(link, entity),
        },
{
    let ghost all = link_views(links@);
    let ghost known = entities@.dom();
    let mut i: usize = 0;
    assert(all.take(0) == Seq::<LinkView>::empty());
    while i < links.len()
        invariant
            i <= links.len(),
            all == link_views(links@),
            known == entities@.dom(),
            first_undefined(all.take(i as int), known) is None,
        decreases links.len() - i,
    {
        let link = &links[i];
        let mut ids: Vec<u32> = Vec::new();
        let mut s: usize = 0;
        while s < link.segments.len()
            invariant
                s <= link.segments.len(),
                ids@ == refs_upto(link@.segments, s as nat),
            decreases link.segments.len() - s,
        {
            collect_refs(&link.segments[s], &mut ids);
            s += 1;
        }
        assert(all.take(i + 1).drop_last() == all.take(i as int));
        assert(all.take(i + 1).last() == link@);
        let mut k: usize = 0;
        assert(ids@.take(0) == Seq::<u32>::empty());
        while k < ids.len()
            invariant
                k <= ids.len(),
                known == entities@.dom(),
                first_missing(ids@.take(k as int), known) is None,
            decreases ids.len() - k,
        {
            let id = ids[k];
            assert(ids@.take(k + 1).drop_last() == ids@.take(k as int));
            assert(ids@.take(k + 1).last() == id);
            if !entities.contains_key(&id) {
                proof {
                    lemma_first_missing_prefix(ids@, k + 1, known);
                    lemma_first_undefined_prefix(all, i + 1, known);
                }
                return Err(ParseError::UndefinedEntityReference(link.id, id));
            }
            k += 1;
        }
        assert(ids@.take(ids.len() as int) == ids@);
        i += 1;
    }
    assert(all.take(links.len() as int) == all);
    Ok(())
}

/// What is missing among the first ids is missing from the whole.
proof fn lemma_first_missing_prefix(ids: Seq<u32>, k: int, known: Set<u32>)
    requires
        0 <= k <= ids.len(),
        first_missing(ids.take(k), known) is Some,
    ensures
        first_missing(ids, known) == first_missing(ids.take(k), known),
    decreases ids.len() - k,
{
    if k == ids.len() {
        assert(ids.take(k) == ids);
    } else {
        assert(ids.take(k + 1).drop_last() == ids.take(k));
        lemma_first_missing_prefix(ids, k + 1, known);
    }
}

/// What is undefined among the first links is undefined in the whole.
proof fn lemma_first_undefined_prefix(links: Seq<LinkView>, k: int, known: Set<u32>)
    requires
        0 <= k <= links.len(),
        first_undefined(links.take(k), known) is Some,
    ensures
        first_undefined(links, known) == first_undefined(links.take(k), known),
    decreases links.len() - k,
{
    if k == links.len() {
        assert(links.take(k) == links);
    } else {
        assert(links.take(k + 1).drop_last() == links.take(k));
        lemma_first_undefined_prefix(links, k + 1, known);
    }
}

/// An error among the first lines is the error of the whole.
proof fn lemma_parse_lines_error(lines: Seq<Seq<char>>, k: int)
    requires
        0 <= k <= lines.len(),
        parse_lines(lines.take(k)) is Err,
    ensures
        parse_lines(lines) == parse_lines(lines.take(k)),
    decreases lines.len() - k,
{
    if k == lines.len() {
        assert(lines.take(k) == lines);
    } else {
        assert(lines.take(k + 1).drop_last() == lines.take(k));
        lemma_parse_lines_error(lines, k + 1);
    }
}

/// Parses a document into its tree.
///
/// Fails on the first line that is wrong, in document order; where every
/// line is right, fails on the first reference to an undeclared entity.
#[verifier::loop_isolation(false)]
pub fn parse_crt(input: &str) -> (out: Result<CRT, ParseError>)
    ensures
        match out {
            Ok(tree) => parse_document(input@) == Ok::<_, ParseErrorView>(tree@) && tree@.wf(),
            Err(err) => parse_document(input@) == Err::<TreeView, _>(err@),
        },
{
    let chars = chars_of(input);
    let lines = split_on(&chars, '\n');
    let ghost all = pieces(lines@);
    let mut entities: BTreeMap<u32, Entity> = BTreeMap::new();
    let mut links: Vec<Link> = Vec::new();
    let mut i: usize = 0;
    proof {
        assert(all.take(0) == Seq::<Seq<char>>::empty());
        assert(entity_views(entities@) == Map::<u32, EntityView>::empty());
        assert(link_views(links@) == Seq::<LinkView>::empty());
    }
    while i < lines.len()
        invariant
            i <= lines.len(),
            all == pieces(lines@),
            all == split(input@, '\n'),
            parse_lines(all.take(i as int)) == Ok::<_, ParseErrorView>(
                TreeView { entities: entity_views(entities@), links: link_views(links@) },
            ),
        decreases lines.len() - i,
    {
        let line = &lines[i];
        let ghost tree = TreeView { entities: entity_views(entities@), links: link_views(links@) };
        proof {
            assert(all.take(i + 1).drop_last() == all.take(i as int));
            assert(all.take(i + 1).last() == line@);
        }
        match read_line(line) {
            Line::Plain => {},
            Line::Entity { .. } => {
                match parse_entity_line_chars(line) {
                    Err(err) => {
                        proof {
                            lemma_parse_lines_error(all, i + 1);
                        }
                        return Err(err);
                    },
                    Ok((id, text)) => {
                        if entities.contains_key(&id) {
                            proof {
                                lemma_parse_lines_error(all, i + 1);
                            }
                            return Err(ParseError::DuplicateEntity(id));
                        }
                        let entity = Entity { id, text };
                        let ghost before = entities@;
                        entities.insert(id, entity);
                        assert(entity_views(entities@) == entity_views(before).insert(
                            id,
                            entity@,
                        ));
                    },
                }
            },
            Line::Link { .. } => {
                match parse_link_line_chars(line) {
                    Err(err) => {
                        proof {
                            lemma_parse_lines_error(all, i + 1);
                        }
                        return Err(err);
                    },
                    Ok(link) => {
                        if contains_link(&links, link.id) {
                            proof {
                                lemma_parse_lines_error(all, i + 1);
                            }
                            return Err(ParseError::DuplicateLink(link.id));
                        }
                        let ghost before = link_views(links@);
                        let ghost added = link@;
                        links.push(link);
                        assert(link_views(links@) == before.push(added));
                    },
                }
            },
        }
        i += 1;
    }
    assert(all.take(lines.len() as int) == all);
    assert(entity_views(entities@).dom() == entities@.dom());
    match validate_refs(&entities, &links) {
        Err(err) => Err(err),
        Ok(_) => {
            proof {
                lemma_parsed_tree(input@);
            }
            Ok(CRT { entities, links })
        },
    }
}

// ---------------------------------------------------------------------
// What parsing guarantees
// ---------------------------------------------------------------------

/// The number of lines that have the shape of an entity declaration.
pub open spec fn entity_line_count(lines: Seq<Seq<char>>) -> nat
    decreases lines.len(),
{
    if lines.len() == 0 {
        0
    } else {
        entity_line_count(lines.drop_last()) + if line_shape(lines.last()) is Entity {
            1nat
        } else {
            0nat
        }
    }
}

/// The number of lines that have the shape of a link declaration.
pub open spec fn link_line_count(lines: Seq<Seq<char>>) -> nat
    decreases lines.len(),
{
    if lines.len() == 0 {
        0
    } else {
        link_line_count(lines.drop_last()) + if line_shape(lines.last()) is Link {
            1nat
        } else {
            0nat
        }
    }
}

/// The numbers of the entities that the lines declare, in document order.
pub open spec fn declared_ids(lines: Seq<Seq<char>>) -> Seq<u32>
    decreases lines.len(),
{
    if lines.len() == 0 {
        Seq::empty()
    } else {
        match entity_of_line(lines.last()) {
            Ok(entity) => declared_ids(lines.drop_last()).push(entity.id),
            Err(_) => declared_ids(lines.drop_last()),
        }
    }
}

/// Whether the lines hold nothing but headings, blank lines and entity
/// declarations that are right in themselves.
pub open spec fn only_entities(lines: Seq<Seq<char>>) -> bool {
    forall|i: int|
        0 <= i < lines.len() ==> line_shape(#[trigger] lines[i]) is Plain || entity_of_line(
            lines[i],
        ) is Ok
}

/// Where the lines parse, the tree has one entity for each entity
/// declaration and one link for each link declaration, and it keeps every
/// promise of a tree but that on references, which the lines alone do not
/// settle.
pub proof fn lemma_parse_lines(lines: Seq<Seq<char>>)
    requires
        parse_lines(lines) is Ok,
    ensures
        ({
            let tree = parse_lines(lines)->Ok_0;
            &&& tree.entities.dom().finite()
            &&& tree.entities.dom().len() == entity_line_count(lines)
            &&& tree.links.len() == link_line_count(lines)
            &&& forall|k: u32|
                tree.entities.contains_key(k) ==> (#[trigger] tree.entities[k]).id == k
                    && tree.entities[k].text.len() > 0
            &&& forall|i: int, j: int|
                0 <= i < j < tree.links.len() ==> (#[trigger] tree.links[i]).id != (
                #[trigger] tree.links[j]).id
            &&& forall|i: int|
                0 <= i < tree.links.len() ==> (#[trigger] tree.links[i]).segments.len() >= 2
        }),
    decreases lines.len(),
{
    if lines.len() > 0 {
        let before = lines.drop_last();
        lemma_parse_lines(before);
        let old = parse_lines(before)->Ok_0;
        let tree = parse_lines(lines)->Ok_0;
        match line_shape(lines.last()) {
            LineShape::Plain => {},
            LineShape::Entity { .. } => {},
            LineShape::Link { digits, rest } => {
                let link = link_of_line(lines.last())->Ok_0;
                lemma_exprs_of_texts_len(split(rest, '→'));
                assert forall|i: int, j: int| 0 <= i < j < tree.links.len() implies (
                #[trigger] tree.links[i]).id != (#[trigger] tree.links[j]).id by {
                    if j == old.links.len() {
                        assert(old.links[i].id != link.id);
                    } else {
                        assert(old.links[i].id != old.links[j].id);
                    }
                }
            },
        }
    }
}

/// Each piece gives one expression.
proof fn lemma_exprs_of_texts_len(texts: Seq<Seq<char>>)
    ensures
        exprs_of_texts(texts) matches Ok(segments) ==> segments.len() == texts.len(),
    decreases texts.len(),
{
    if texts.len() > 0 {
        lemma_exprs_of_texts_len(texts.drop_last());
    }
}

/// A document that parses gives a tree that keeps every promise of a tree,
/// with exactly as many entities as the document has entity declarations.
pub proof fn lemma_parsed_tree(text: Seq<char>)
    requires
        parse_document(text) is Ok,
    ensures
        parse_document(text)->Ok_0.wf(),
        parse_document(text)->Ok_0.entities.dom().finite(),
        parse_document(text)->Ok_0.entities.dom().len() == entity_line_count(split(text, '\n')),
        parse_document(text)->Ok_0.links.len() == link_line_count(split(text, '\n')),
{
    lemma_parse_lines(split(text, '\n'));
}

proof fn lemma_only_entities(lines: Seq<Seq<char>>)
    requires
        only_entities(lines),
        declared_ids(lines).no_duplicates(),
    ensures
        parse_lines(lines) is Ok,
        parse_lines(lines)->Ok_0.links.len() == 0,
        parse_lines(lines)->Ok_0.entities.dom() == declared_ids(lines).to_set(),
        declared_ids(lines).len() == entity_line_count(lines),
    decreases lines.len(),
{
    if lines.len() == 0 {
        assert(declared_ids(lines).to_set() == Set::<u32>::empty());
    } else {
        let before = lines.drop_last();
        let last = lines.last();
        assert(lines[lines.len() - 1] == last);
        assert forall|i: int| 0 <= i < before.len() implies line_shape(#[trigger] before[i])
            is Plain || entity_of_line(before[i]) is Ok by {
            assert(before[i] == lines[i]);
        }
        let ids = declared_ids(lines);
        let earlier = declared_ids(before);
        match entity_of_line(last) {
            Ok(entity) => {
                assert(ids == earlier.push(entity.id));
                assert forall|i: int, j: int|
                    0 <= i < earlier.len() && 0 <= j < earlier.len() && i != j implies earlier[i]
                    != earlier[j] by {
                    assert(ids[i] == earlier[i] && ids[j] == earlier[j]);
                }
                lemma_only_entities(before);
                if earlier.contains(entity.id) {
                    let k = choose|k: int| 0 <= k < earlier.len() && earlier[k] == entity.id;
                    assert(ids[k] == ids[earlier.len() as int]);
                }
                assert(!earlier.to_set().contains(entity.id));
                earlier.lemma_push_to_set_commute(entity.id);
            },
            Err(_) => {
                lemma_only_entities(before);
            },
        }
    }
}

/// A document that holds nothing but headings, blank lines and entity
/// declarations, no two of them with the same number, parses, and the tree
/// has exactly as many entities as the document has declarations.
pub proof fn lemma_distinct_entities_parse(text: Seq<char>)
    requires
        only_entities(split(text, '\n')),
        declared_ids(split(text, '\n')).no_duplicates(),
    ensures
        parse_document(text) is Ok,
        parse_document(text)->Ok_0.entities.dom().len() == entity_line_count(split(text, '\n')),
        parse_document(text)->Ok_0.entities.dom().len() == declared_ids(split(text, '\n')).len(),
{
    let lines = split(text, '\n');
    lemma_only_entities(lines);
    lemma_parse_lines(lines);
    assert(parse_lines(lines)->Ok_0.links == Seq::<LinkView>::empty());
}

/// Whether one of `links` mentions the entity `id`.
pub open spec fn mentions(links: Seq<LinkView>, id: u32) -> bool {
    exists|i: int| 0 <= i < links.len() && link_refs(#[trigger] links[i]).contains(id)
}

/// Whether the link numbered `link`, one of `links`, mentions the entity `id`.
pub open spec fn link_mentions(links: Seq<LinkView>, link: u32, id: u32) -> bool {
    exists|i: int|
        0 <= i < links.len() && (#[trigger] links[i]).id == link && link_refs(links[i]).contains(id)
}

/// Nothing is missing exactly where every id is known; what is missing is one
/// of the ids, and unknown.
proof fn lemma_first_missing(ids: Seq<u32>, known: Set<u32>)
    ensures
        match first_missing(ids, known) {
            None => forall|j: int| 0 <= j < ids.len() ==> known.contains(#[trigger] ids[j]),
            Some(id) => ids.contains(id) && !known.contains(id),
        },
    decreases ids.len(),
{
    if ids.len() > 0 {
        let before = ids.drop_last();
        lemma_first_missing(before, known);
        match first_missing(before, known) {
            Some(id) => {
                let j = choose|j: int| 0 <= j < before.len() && before[j] == id;
                assert(ids[j] == id);
            },
            None => {
                assert(ids[ids.len() - 1] == ids.last());
                assert forall|j: int| 0 <= j < ids.len() && known.contains(ids.last()) implies known.contains(
                    #[trigger] ids[j],
                ) by {
                    if j < before.len() {
                        assert(before[j] == ids[j]);
                    }
                }
            },
        }
    }
}

/// Nothing is undefined exactly where the links mention known entities only;
/// what is undefined is an unknown entity that the link named with it
/// mentions.
proof fn lemma_first_undefined(links: Seq<LinkView>, known: Set<u32>)
    ensures
        match first_undefined(links, known) {
            None => forall|id: u32| mentions(links, id) ==> known.contains(id),
            Some((link, id)) => link_mentions(links, link, id) && !known.contains(id),
        },
    decreases links.len(),
{
    if links.len() > 0 {
        let before = links.drop_last();
        let last = links.last();
        lemma_first_undefined(before, known);
        lemma_first_missing(link_refs(last), known);
        match first_undefined(before, known) {
            Some((link, id)) => {
                let i = choose|i: int|
                    0 <= i < before.len() && (#[trigger] before[i]).id == link && link_refs(
                        before[i],
                    ).contains(id);
                assert(links[i] == before[i]);
            },
            None => {
                match first_missing(link_refs(last), known) {
                    Some(id) => {
                        assert(links[links.len() - 1] == last);
                    },
                    None => {
                        assert forall|id: u32| mentions(links, id) implies known.contains(id) by {
                            let i = choose|i: int|
                                0 <= i < links.len() && link_refs(#[trigger] links[i]).contains(id);
                            if i < before.len() {
                                assert(before[i] == links[i]);
                                assert(mentions(before, id));
                            }
                        }
                    },
                }
            },
        }
    }
}

/// Where the lines parse, the tree's entities are those that the lines
/// declare, and no two declarations share a number.
pub proof fn lemma_declared_ids(lines: Seq<Seq<char>>)
    requires
        parse_lines(lines) is Ok,
    ensures
        parse_lines(lines)->Ok_0.entities.dom() == declared_ids(lines).to_set(),
        declared_ids(lines).no_duplicates(),
    decreases lines.len(),
{
    if lines.len() == 0 {
        assert(declared_ids(lines).to_set() == Set::<u32>::empty());
    } else {
        let before = lines.drop_last();
        lemma_declared_ids(before);
        let earlier = declared_ids(before);
        if let LineShape::Entity { .. } = line_shape(lines.last()) {
            let entity = entity_of_line(lines.last())->Ok_0;
            assert(!earlier.contains(entity.id));
            earlier.lemma_push_to_set_commute(entity.id);
        }
    }
}

/// A second declaration of an entity is rejected: where the lines before
/// line `k` parse and line `k` declares an entity that one of them declares
/// already, the document fails with `DuplicateEntity` and that entity's
/// number.
pub proof fn lemma_duplicate_entity_rejected(text: Seq<char>, k: int)
    requires
        0 <= k < split(text, '\n').len(),
        parse_lines(split(text, '\n').take(k)) is Ok,
        entity_of_line(split(text, '\n')[k]) is Ok,
        declared_ids(split(text, '\n').take(k)).contains(entity_of_line(split(text, '\n')[k])->Ok_0.id),
    ensures
        parse_document(text) == Err::<TreeView, _>(
            ParseErrorView::DuplicateEntity(entity_of_line(split(text, '\n')[k])->Ok_0.id),
        ),
{
    let lines = split(text, '\n');
    lemma_declared_ids(lines.take(k));
    assert(lines.take(k + 1).drop_last() == lines.take(k));
    assert(lines.take(k + 1).last() == lines[k]);
    lemma_parse_lines_error(lines, k + 1);
}

/// A document with two declarations of one entity never parses.
pub proof fn lemma_repeated_entity_fails(text: Seq<char>)
    requires
        !declared_ids(split(text, '\n')).no_duplicates(),
    ensures
        parse_document(text) is Err,
{
    if parse_lines(split(text, '\n')) is Ok {
        lemma_declared_ids(split(text, '\n'));
    }
}

/// References decide the fate of a document whose lines are right: it parses
/// exactly where every entity that a link mentions is declared, and fails
/// otherwise with `UndefinedEntityReference`, naming a link of the document
/// and an entity that this link mentions and that no line declares.
pub proof fn lemma_undefined_reference_rejected(text: Seq<char>)
    requires
        parse_lines(split(text, '\n')) is Ok,
    ensures
        ({
            let tree = parse_lines(split(text, '\n'))->Ok_0;
            let declared = declared_ids(split(text, '\n'));
            match parse_document(text) {
                Ok(parsed) => parsed == tree && forall|id: u32|
                    mentions(tree.links, id) ==> declared.contains(id),
                Err(ParseErrorView::UndefinedEntityReference(link, id)) => link_mentions(
                    tree.links,
                    link,
                    id,
                ) && !declared.contains(id),
                Err(_) => false,
            }
        }),
{
    let lines = split(text, '\n');
    let tree = parse_lines(lines)->Ok_0;
    lemma_declared_ids(lines);
    lemma_first_undefined(tree.links, tree.entities.dom());
}

} // verus!
