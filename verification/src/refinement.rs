//! The refinement sanitizer: makes a proposed set of entities and links safe
//! to merge into a document.
//!
//! Every proposed item ends up with an identifier that collides with nothing
//! the caller already has nor with another item of the proposal; every
//! reference is rewritten to follow the items that got a new identifier, and
//! a reference that points at nothing known is dropped.

use vstd::prelude::*;
use vstd::string::StringExecFns;
use crate::ids::{
    fresh_index, id_text, lemma_fresh_index, lemma_fresh_index_members, lemma_max_suffix_members,
    lemma_same_members_extend, max_suffix, same_members, IdAllocator,
};
use crate::pattern::{
    escape, escaped, find_all, is_match, regex_find_all, regex_is_match, regex_replace_all,
    replace_all,
};
use crate::text::{
    chars_of, contains_text, find_char, index_of, index_of_text, opt_text, subrange, texts, trim,
    trimmed,
};

verus! {

// ---------------------------------------------------------------------
// The proposal
// ---------------------------------------------------------------------

/// A proposed entity.
#[derive(Debug, Clone, PartialEq, Eq)]
pub struct CrtEntity {
    pub id: String,
    pub text: String,
    /// Whether the proposal introduces this entity.
    pub added: bool,
}

pub struct CrtEntityView {
    pub id: Seq<char>,
    pub text: Seq<char>,
    pub added: bool,
}

impl View for CrtEntity {
    type V = CrtEntityView;

    open spec fn view(&self) -> CrtEntityView {
        CrtEntityView { id: self.id@, text: self.text@, added: self.added }
    }
}

/// A proposed link.
#[derive(Debug, Clone, PartialEq, Eq)]
pub struct CrtLink {
    pub id: String,
    pub from: Option<String>,
    pub to: Option<String>,
    pub kind: Option<String>,
    /// Whether the proposal introduces this link.
    pub added: bool,
    pub entities: Vec<String>,
    pub source_entities: Vec<String>,
    pub target_entities: Vec<String>,
    pub expressions: Vec<String>,
    /// The link as one line of the document.
    pub line: Option<String>,
    /// The link's statement without its identifier.
    pub text: Option<String>,
}

pub struct CrtLinkView {
    pub id: Seq<char>,
    pub from: Option<Seq<char>>,
    pub to: Option<Seq<char>>,
    pub kind: Option<Seq<char>>,
    pub added: bool,
    pub entities: Seq<Seq<char>>,
    pub source_entities: Seq<Seq<char>>,
    pub target_entities: Seq<Seq<char>>,
    pub expressions: Seq<Seq<char>>,
    pub line: Option<Seq<char>>,
    pub text: Option<Seq<char>>,
}

impl View for CrtLink {
    type V = CrtLinkView;

    open spec fn view(&self) -> CrtLinkView {
        CrtLinkView {
            id: self.id@,
            from: opt_text(self.from),
            to: opt_text(self.to),
            kind: opt_text(self.kind),
            added: self.added,
            entities: texts(self.entities@),
            source_entities: texts(self.source_entities@),
            target_entities: texts(self.target_entities@),
            expressions: texts(self.expressions@),
            line: opt_text(self.line),
            text: opt_text(self.text),
        }
    }
}

/// The restatement of the tree that a proposal carries.
#[derive(Debug, Clone, PartialEq, Eq)]
pub struct CrtRestatement {
    pub entities: Vec<CrtEntity>,
    pub links: Vec<CrtLink>,
}

pub struct CrtRestatementView {
    pub entities: Seq<CrtEntityView>,
    pub links: Seq<CrtLinkView>,
}

pub open spec fn entity_proposals(v: Seq<CrtEntity>) -> Seq<CrtEntityView> {
    Seq::new(v.len(), |i: int| v[i]@)
}

pub open spec fn link_proposals(v: Seq<CrtLink>) -> Seq<CrtLinkView> {
    Seq::new(v.len(), |i: int| v[i]@)
}

impl View for CrtRestatement {
    type V = CrtRestatementView;

    open spec fn view(&self) -> CrtRestatementView {
        CrtRestatementView {
            entities: entity_proposals(self.entities@),
            links: link_proposals(self.links@),
        }
    }
}

/// One finding of the proposal's analysis; carried through as it is.
#[derive(Debug, Clone, PartialEq, Eq)]
pub struct LeapAnalysisEntry {
    pub link: Option<String>,
    pub clr_finding: Option<String>,
    pub why_its_a_leap: Option<String>,
    pub bridging_proposal: Vec<String>,
    pub rewritten_micro_chain: Option<String>,
}

/// A proposal to refine a tree: the restated entities and links, and the
/// analysis that goes with them.
#[derive(Debug, Clone, PartialEq, Eq)]
pub struct AgentRefinement {
    pub crt_restatement: CrtRestatement,
    pub leap_analysis: Vec<LeapAnalysisEntry>,
    pub suggested_edits: Vec<String>,
    pub quick_consistency_checks: Vec<String>,
    pub run_id: Option<String>,
}

// ---------------------------------------------------------------------
// Identifiers and the rewrite map
// ---------------------------------------------------------------------

/// The pattern of an entity identifier.
pub const ENTITY_ID_PATTERN: &'static str = "^E\\d+$";

/// The pattern of a link identifier.
pub const LINK_ID_PATTERN: &'static str = "^L\\d+$";

/// Whether the engine finds `id` to be an entity identifier.
pub open spec fn is_entity_id(id: Seq<char>) -> bool {
    regex_is_match(ENTITY_ID_PATTERN@, id) == Some(true)
}

/// Whether the engine finds `id` to be a link identifier.
pub open spec fn is_link_id(id: Seq<char>) -> bool {
    regex_is_match(LINK_ID_PATTERN@, id) == Some(true)
}

/// A rewrite map: pairs of an old identifier and the new one that replaces
/// it, in the order in which the old identifiers first came up.
pub type Rewrites = Seq<(Seq<char>, Seq<char>)>;

/// The index of the first pair of `m` for `key`, or the length of `m`.
pub open spec fn key_index(m: Rewrites, key: Seq<char>) -> int
    decreases m.len(),
{
    if m.len() == 0 || m[0].0 == key {
        0
    } else {
        1 + key_index(m.drop_first(), key)
    }
}

/// What `m` replaces `key` by, if anything.
pub open spec fn lookup(m: Rewrites, key: Seq<char>) -> Option<Seq<char>> {
    let i = key_index(m, key);
    if 0 <= i < m.len() {
        Some(m[i].1)
    } else {
        None
    }
}

/// `m` with `key` replaced by `value` from now on.
pub open spec fn put(m: Rewrites, key: Seq<char>, value: Seq<char>) -> Rewrites {
    let i = key_index(m, key);
    if 0 <= i < m.len() {
        m.update(i, (key, value))
    } else {
        m.push((key, value))
    }
}

/// `id` as `m` rewrites it.
pub open spec fn mapped(m: Rewrites, id: Seq<char>) -> Seq<char> {
    match lookup(m, id) {
        Some(new) => new,
        None => id,
    }
}

/// The pattern that finds `old` as a whole word.
pub open spec fn word_pattern(old: Seq<char>) -> Seq<char> {
    seq!['\\', 'b'] + escaped(old) + seq!['\\', 'b']
}

/// `text` with every whole-word occurrence of `old` replaced by `new`, as
/// the engine finds them; `text` itself where the engine refuses the pattern.
pub open spec fn replace_word(text: Seq<char>, old: Seq<char>, new: Seq<char>) -> Seq<char> {
    match regex_replace_all(word_pattern(old), text, new) {
        Some(out) => out,
        None => text,
    }
}

/// `text` after each pair of `m`, in order, has replaced its old identifier.
pub open spec fn apply_rewrites(text: Seq<char>, m: Rewrites) -> Seq<char>
    decreases m.len(),
{
    if m.len() == 0 {
        text
    } else {
        replace_word(apply_rewrites(text, m.drop_last()), m.last().0, m.last().1)
    }
}

// ---------------------------------------------------------------------
// The entity pass
// ---------------------------------------------------------------------

/// The identifiers of a list of entities.
pub open spec fn entity_ids(entities: Seq<CrtEntityView>) -> Seq<Seq<char>> {
    Seq::new(entities.len(), |i: int| entities[i].id)
}

/// The identifiers of a list of links.
pub open spec fn link_ids(links: Seq<CrtLinkView>) -> Seq<Seq<char>> {
    Seq::new(links.len(), |i: int| links[i].id)
}

/// The state of the entity pass behind some of the proposal's entities.
pub struct EntityPass {
    /// The entities so far, under their final identifiers.
    pub entities: Seq<CrtEntityView>,
    /// The number that is tried next for a fresh identifier.
    pub next: nat,
    /// The identifiers that were replaced, and by what.
    pub rewrites: Rewrites,
}

/// Whether a proposed entity cannot keep its identifier: the identifier is
/// malformed, or the entity is new and the document has the identifier
/// already, or an earlier entity of the proposal has it.
pub open spec fn entity_needs_fresh_id(
    e: CrtEntityView,
    existing: Seq<Seq<char>>,
    earlier: Seq<Seq<char>>,
) -> bool {
    ||| !is_entity_id(e.id)
    ||| (existing.contains(e.id) && e.added)
    ||| earlier.contains(e.id)
}

/// The entity pass after one more entity.
pub open spec fn entity_step(p: EntityPass, e: CrtEntityView, existing: Seq<Seq<char>>) -> EntityPass {
    let earlier = entity_ids(p.entities);
    if entity_needs_fresh_id(e, existing, earlier) {
        let n = fresh_index(existing + earlier, 'E', p.next);
        let id = id_text('E', n);
        EntityPass {
            entities: p.entities.push(CrtEntityView { id, ..e }),
            next: n + 1,
            rewrites: put(p.rewrites, e.id, id),
        }
    } else {
        EntityPass { entities: p.entities.push(e), ..p }
    }
}

/// The entity pass over `entities`, first to last.
pub open spec fn entity_pass(entities: Seq<CrtEntityView>, existing: Seq<Seq<char>>) -> EntityPass
    decreases entities.len(),
{
    if entities.len() == 0 {
        EntityPass {
            entities: Seq::empty(),
            next: max_suffix(existing, 'E') + 1,
            rewrites: Seq::empty(),
        }
    } else {
        entity_step(entity_pass(entities.drop_last(), existing), entities.last(), existing)
    }
}

// ---------------------------------------------------------------------
// The link pass
// ---------------------------------------------------------------------

/// Whether a reference may stay: it is an entity identifier and it is known.
pub open spec fn ref_ok(id: Seq<char>, known: Seq<Seq<char>>) -> bool {
    is_entity_id(id) && known.contains(id)
}

/// The references `ids`, each as `m` rewrites it; those that may not stay
/// are left out.
pub open spec fn map_refs(ids: Seq<Seq<char>>, m: Rewrites, known: Seq<Seq<char>>) -> Seq<
    Seq<char>,
>
    decreases ids.len(),
{
    if ids.len() == 0 {
        Seq::empty()
    } else {
        let before = map_refs(ids.drop_last(), m, known);
        let id = mapped(m, ids.last());
        if ref_ok(id, known) {
            before.push(id)
        } else {
            before
        }
    }
}

/// A single endpoint as `m` rewrites it, or nothing where it may not stay.
pub open spec fn endpoint(o: Option<Seq<char>>, m: Rewrites, known: Seq<Seq<char>>) -> Option<
    Seq<char>,
> {
    match o {
        Some(id) => if ref_ok(mapped(m, id), known) {
            Some(mapped(m, id))
        } else {
            None
        },
        None => None,
    }
}

/// `list` with the endpoint added at its end, unless it holds it already.
pub open spec fn with_ref(list: Seq<Seq<char>>, o: Option<Seq<char>>) -> Seq<Seq<char>> {
    match o {
        Some(id) => if list.contains(id) {
            list
        } else {
            list.push(id)
        },
        None => list,
    }
}

/// `s` without repeats: of equal entries the first one stays.
pub open spec fn dedup_texts(s: Seq<Seq<char>>) -> Seq<Seq<char>>
    decreases s.len(),
{
    if s.len() == 0 {
        Seq::empty()
    } else {
        let before = dedup_texts(s.drop_last());
        if before.contains(s.last()) {
            before
        } else {
            before.push(s.last())
        }
    }
}

/// What a display line says behind its identifier: the trimmed text behind
/// the first dot, or the whole trimmed line where it has no dot.
pub open spec fn line_suffix(line: Seq<char>) -> Seq<char> {
    let i = index_of(line, '.');
    if 0 <= i < line.len() {
        trimmed(line.skip(i + 1))
    } else {
        trimmed(line)
    }
}

/// The display line `<id>. <body>`.
pub open spec fn display_line(id: Seq<char>, body: Seq<char>) -> Seq<char> {
    id + seq!['.', ' '] + body
}

/// Each of `ss` as `m` rewrites it.
pub open spec fn rewrite_texts(ss: Seq<Seq<char>>, m: Rewrites) -> Seq<Seq<char>> {
    Seq::new(ss.len(), |i: int| apply_rewrites(ss[i], m))
}

/// The display line of a rewritten link: built from the link's text where
/// it has one, else from what its old line says behind the identifier.
pub open spec fn rewritten_line(
    id: Seq<char>,
    text: Option<Seq<char>>,
    line: Option<Seq<char>>,
    m: Rewrites,
) -> Option<Seq<char>> {
    match text {
        Some(t) => Some(display_line(id, apply_rewrites(t, m))),
        None => match line {
            Some(old) => Some(display_line(id, line_suffix(apply_rewrites(old, m)))),
            None => None,
        },
    }
}

/// A proposed link under its final identifier `id`, with every reference
/// and every text rewritten by `m` and checked against `known`.
pub open spec fn rewrite_link(
    l: CrtLinkView,
    id: Seq<char>,
    m: Rewrites,
    known: Seq<Seq<char>>,
) -> CrtLinkView {
    let from = endpoint(l.from, m, known);
    let to = endpoint(l.to, m, known);
    CrtLinkView {
        id,
        from,
        to,
        kind: l.kind,
        added: l.added,
        entities: dedup_texts(with_ref(with_ref(map_refs(l.entities, m, known), from), to)),
        source_entities: dedup_texts(with_ref(map_refs(l.source_entities, m, known), from)),
        target_entities: dedup_texts(with_ref(map_refs(l.target_entities, m, known), to)),
        expressions: rewrite_texts(l.expressions, m),
        line: rewritten_line(id, l.text, l.line, m),
        text: match l.text {
            Some(t) => Some(apply_rewrites(t, m)),
            None => None,
        },
    }
}

/// The state of the link pass behind some of the proposal's links.
pub struct LinkPass {
    /// The links so far, rewritten.
    pub links: Seq<CrtLinkView>,
    /// The number that is tried next for a fresh identifier.
    pub next: nat,
}

/// Whether a proposed link cannot keep its identifier: the link is new, or
/// the identifier is malformed, or an earlier link of the proposal has it.
pub open spec fn link_needs_fresh_id(l: CrtLinkView, earlier: Seq<Seq<char>>) -> bool {
    ||| l.added
    ||| !is_link_id(l.id)
    ||| earlier.contains(l.id)
}

/// The link pass after one more link.
pub open spec fn link_step(
    p: LinkPass,
    l: CrtLinkView,
    existing: Seq<Seq<char>>,
    m: Rewrites,
    known: Seq<Seq<char>>,
) -> LinkPass {
    let earlier = link_ids(p.links);
    if link_needs_fresh_id(l, earlier) {
        let n = fresh_index(existing + earlier, 'L', p.next);
        LinkPass { links: p.links.push(rewrite_link(l, id_text('L', n), m, known)), next: n + 1 }
    } else {
        LinkPass { links: p.links.push(rewrite_link(l, l.id, m, known)), ..p }
    }
}

/// The link pass over `links`, first to last.
pub open spec fn link_pass(
    links: Seq<CrtLinkView>,
    existing: Seq<Seq<char>>,
    m: Rewrites,
    known: Seq<Seq<char>>,
) -> LinkPass
    decreases links.len(),
{
    if links.len() == 0 {
        LinkPass { links: Seq::empty(), next: max_suffix(existing, 'L') + 1 }
    } else {
        link_step(link_pass(links.drop_last(), existing, m, known), links.last(), existing, m, known)
    }
}

/// The sanitized form of a restatement, given the entity and link
/// identifiers that the document has already.
pub open spec fn sanitized(
    r: CrtRestatementView,
    existing_entities: Seq<Seq<char>>,
    existing_links: Seq<Seq<char>>,
) -> CrtRestatementView {
    let ep = entity_pass(r.entities, existing_entities);
    let known = existing_entities + entity_ids(ep.entities);
    let lp = link_pass(r.links, existing_links, ep.rewrites, known);
    CrtRestatementView { entities: ep.entities, links: lp.links }
}

// ---------------------------------------------------------------------
// The rewrite map at run time
// ---------------------------------------------------------------------

/// The rewrite map that the entity pass builds.
#[derive(Debug, Clone, PartialEq, Eq)]
pub struct IdMapping {
    pub pairs: Vec<(String, String)>,
}

pub open spec fn pair_texts(pairs: Seq<(String, String)>) -> Rewrites {
    Seq::new(pairs.len(), |i: int| (pairs[i].0@, pairs[i].1@))
}

impl View for IdMapping {
    type V = Rewrites;

    open spec fn view(&self) -> Rewrites {
        pair_texts(self.pairs@)
    }
}

impl IdMapping {
    /// The map that rewrites nothing.
    pub fn new() -> (out: Self)
        ensures
            out@ == Seq::<(Seq<char>, Seq<char>)>::empty(),
    {
        let out = IdMapping { pairs: Vec::new() };
        assert(out@ == Seq::<(Seq<char>, Seq<char>)>::empty());
        out
    }

    /// The index of the pair for `key`, or the number of pairs.
    fn find(&self, key: &String) -> (at: usize)
        ensures
            at <= self.pairs.len(),
            at == key_index(self@, key@),
    {
        let ghost m = self@;
        let mut at: usize = 0;
        assert(m.skip(0) == m);
        while at < self.pairs.len() && self.pairs[at].0 != *key
            invariant
                at <= self.pairs.len(),
                m == self@,
                key_index(m, key@) == at + key_index(m.skip(at as int), key@),
            decreases self.pairs.len() - at,
        {
            assert(m.skip(at as int)[0] == m[at as int]);
            assert(m.skip(at as int).drop_first() == m.skip(at + 1));
            at += 1;
        }
        proof {
            if at < self.pairs.len() {
                assert(m.skip(at as int)[0] == m[at as int]);
            }
        }
        at
    }

    /// What the map replaces `key` by, if anything.
    pub fn get(&self, key: &String) -> (out: Option<String>)
        ensures
            opt_text(out) == lookup(self@, key@),
    {
        let at = self.find(key);
        if at < self.pairs.len() {
            Some(self.pairs[at].1.clone())
        } else {
            None
        }
    }

    /// `id` as the map rewrites it.
    pub fn resolve(&self, id: &String) -> (out: String)
        ensures
            out@ == mapped(self@, id@),
    {
        match self.get(id) {
            Some(new) => new,
            None => id.clone(),
        }
    }

    /// Makes the map replace `key` by `value` from now on.
    pub fn insert(&mut self, key: String, value: String)
        ensures
            final(self)@ == put(old(self)@, key@, value@),
    {
        let at = self.find(&key);
        let ghost before = self@;
        if at < self.pairs.len() {
            self.pairs.set(at, (key, value));
            assert(self@ == before.update(at as int, (key@, value@)));
        } else {
            self.pairs.push((key, value));
            assert(self@ == before.push((key@, value@)));
        }
    }
}

fn matches_entity_id(id: &String) -> (out: bool)
    ensures
        out == is_entity_id(id@),
{
    match is_match(ENTITY_ID_PATTERN, id.as_str()) {
        Some(found) => found,
        None => false,
    }
}

fn matches_link_id(id: &String) -> (out: bool)
    ensures
        out == is_link_id(id@),
{
    match is_match(LINK_ID_PATTERN, id.as_str()) {
        Some(found) => found,
        None => false,
    }
}

/// Replaces every whole-word occurrence of `old` in `text` by `new`.
fn replace_word_in(text: &String, old: &String, new: &String) -> (out: String)
    ensures
        out@ == replace_word(text@, old@, new@),
{
    let mut pattern = String::new();
    pattern.push('\\');
    pattern.push('b');
    let quoted = escape(old.as_str());
    pattern.append(quoted.as_str());
    pattern.push('\\');
    pattern.push('b');
    assert(pattern@ == word_pattern(old@));
    match replace_all(pattern.as_str(), text.as_str(), new.as_str()) {
        Some(out) => out,
        None => text.clone(),
    }
}

/// Rewrites the identifiers in a free text: each old identifier of the map,
/// where it stands as a whole word, gives way to its new one.
pub fn apply_mapping(text: &str, mapping: &IdMapping) -> (out: String)
    ensures
        out@ == apply_rewrites(text@, mapping@),
{
    let mut result = String::from_str(text);
    let ghost m = mapping@;
    let mut i: usize = 0;
    assert(m.take(0) == Seq::<(Seq<char>, Seq<char>)>::empty());
    while i < mapping.pairs.len()
        invariant
            i <= mapping.pairs.len(),
            m == mapping@,
            result@ == apply_rewrites(text@, m.take(i as int)),
        decreases mapping.pairs.len() - i,
    {
        assert(m.take(i + 1).drop_last() == m.take(i as int));
        assert(m.take(i + 1).last() == m[i as int]);
        result = replace_word_in(&result, &mapping.pairs[i].0, &mapping.pairs[i].1);
        i += 1;
    }
    assert(m.take(mapping.pairs.len() as int) == m);
    result
}

/// Removes repeats from a list; of equal entries the first one stays.
pub fn dedup(values: &mut Vec<String>)
    ensures
        texts(final(values)@) == dedup_texts(texts(old(values)@)),
{
    let ghost all = texts(values@);
    let mut out: Vec<String> = Vec::new();
    let mut i: usize = 0;
    assert(all.take(0) == Seq::<Seq<char>>::empty());
    assert(texts(out@) == Seq::<Seq<char>>::empty());
    while i < values.len()
        invariant
            i <= values.len(),
            all == texts(values@),
            texts(out@) == dedup_texts(all.take(i as int)),
        decreases values.len() - i,
    {
        assert(all.take(i + 1).drop_last() == all.take(i as int));
        assert(all.take(i + 1).last() == values@[i as int]@);
        if !contains_text(&out, &values[i]) {
            let ghost before = texts(out@);
            out.push(values[i].clone());
            assert(texts(out@) == before.push(values@[i as int]@));
        }
        i += 1;
    }
    assert(all.take(values.len() as int) == all);
    *values = out;
}

/// Rewrites a list of references and leaves out those that may not stay.
fn update_refs(value: &Vec<String>, mapping: &IdMapping, known: &Vec<String>) -> (out: Vec<String>)
    ensures
        texts(out@) == map_refs(texts(value@), mapping@, texts(known@)),
{
    let ghost all = texts(value@);
    let mut out: Vec<String> = Vec::new();
    let mut i: usize = 0;
    assert(all.take(0) == Seq::<Seq<char>>::empty());
    assert(texts(out@) == Seq::<Seq<char>>::empty());
    while i < value.len()
        invariant
            i <= value.len(),
            all == texts(value@),
            texts(out@) == map_refs(all.take(i as int), mapping@, texts(known@)),
        decreases value.len() - i,
    {
        assert(all.take(i + 1).drop_last() == all.take(i as int));
        assert(all.take(i + 1).last() == value@[i as int]@);
        let id = mapping.resolve(&value[i]);
        if matches_entity_id(&id) && contains_text(known, &id) {
            let ghost before = texts(out@);
            out.push(id);
            assert(texts(out@) == before.push(id@));
        }
        i += 1;
    }
    assert(all.take(value.len() as int) == all);
    out
}

/// Rewrites a single endpoint; nothing is left of one that may not stay.
fn update_endpoint(o: &Option<String>, mapping: &IdMapping, known: &Vec<String>) -> (out: Option<
    String,
>)
    ensures
        opt_text(out) == endpoint(opt_text(*o), mapping@, texts(known@)),
{
    match o {
        Some(id) => {
            let new = mapping.resolve(id);
            if matches_entity_id(&new) && contains_text(known, &new) {
                Some(new)
            } else {
                None
            }
        },
        None => None,
    }
}

/// Adds the endpoint to the end of the list, unless the list holds it.
fn push_if_absent(list: &mut Vec<String>, o: &Option<String>)
    ensures
        texts(final(list)@) == with_ref(texts(old(list)@), opt_text(*o)),
{
    match o {
        Some(id) => {
            if !contains_text(list, id) {
                let ghost before = texts(list@);
                list.push(id.clone());
                assert(texts(list@) == before.push(id@));
            }
        },
        None => {},
    }
}

/// What a display line says behind its identifier.
fn suffix_of_line(line: &String) -> (out: Vec<char>)
    ensures
        out@ == line_suffix(line@),
{
    let chars = chars_of(line.as_str());
    assert(chars@.skip(0) == chars@);
    let dot = find_char(&chars, 0, '.');
    if dot < chars.len() {
        let rest = subrange(&chars, dot + 1, chars.len());
        assert(rest@ == chars@.skip(dot + 1));
        trim(&rest)
    } else {
        trim(&chars)
    }
}

/// Writes the display line `<id>. <body>`.
fn line_of(id: &String, body: &Vec<char>) -> (out: String)
    ensures
        out@ == display_line(id@, body@),
{
    let mut out = id.clone();
    out.push('.');
    out.push(' ');
    let mut i: usize = 0;
    assert(body@.take(0) == Seq::<char>::empty());
    assert(id@ + seq!['.', ' '] == id@.push('.').push(' '));
    assert(id@ + seq!['.', ' '] + body@.take(0) == id@ + seq!['.', ' ']);
    while i < body.len()
        invariant
            i <= body.len(),
            out@ == id@ + seq!['.', ' '] + body@.take(i as int),
        decreases body.len() - i,
    {
        out.push(body[i]);
        assert(body@.take(i + 1) == body@.take(i as int).push(body@[i as int]));
        i += 1;
    }
    assert(body@.take(body.len() as int) == body@);
    out
}

/// Rewrites each text of a list.
fn rewrite_all(ss: &Vec<String>, mapping: &IdMapping) -> (out: Vec<String>)
    ensures
        texts(out@) == rewrite_texts(texts(ss@), mapping@),
{
    let mut out: Vec<String> = Vec::new();
    let mut i: usize = 0;
    while i < ss.len()
        invariant
            i <= ss.len(),
            out.len() == i,
            forall|j: int| 0 <= j < i ==> out@[j]@ == apply_rewrites(ss@[j]@, mapping@),
        decreases ss.len() - i,
    {
        out.push(apply_mapping(ss[i].as_str(), mapping));
        i += 1;
    }
    assert(texts(out@) == rewrite_texts(texts(ss@), mapping@));
    out
}

fn clone_opt(o: &Option<String>) -> (out: Option<String>)
    ensures
        opt_text(out) == opt_text(*o),
{
    match o {
        Some(s) => Some(s.clone()),
        None => None,
    }
}

/// Puts a proposed link under its final identifier and rewrites and checks
/// all that it refers to.
fn rewrite_link_with(link: &CrtLink, id: String, mapping: &IdMapping, known: &Vec<String>) -> (out:
    CrtLink)
    ensures
        out@ == rewrite_link(link@, id@, mapping@, texts(known@)),
{
    let from = update_endpoint(&link.from, mapping, known);
    let to = update_endpoint(&link.to, mapping, known);
    let mut entities = update_refs(&link.entities, mapping, known);
    let mut source_entities = update_refs(&link.source_entities, mapping, known);
    let mut target_entities = update_refs(&link.target_entities, mapping, known);
    push_if_absent(&mut source_entities, &from);
    push_if_absent(&mut entities, &from);
    push_if_absent(&mut target_entities, &to);
    push_if_absent(&mut entities, &to);
    dedup(&mut entities);
    dedup(&mut source_entities);
    dedup(&mut target_entities);
    let text = match &link.text {
        Some(t) => Some(apply_mapping(t.as_str(), mapping)),
        None => None,
    };
    let line = match &text {
        Some(t) => {
            let body = chars_of(t.as_str());
            Some(line_of(&id, &body))
        },
        None => match &link.line {
            Some(old) => {
                let updated = apply_mapping(old.as_str(), mapping);
                let body = suffix_of_line(&updated);
                Some(line_of(&id, &body))
            },
            None => None,
        },
    };
    let expressions = rewrite_all(&link.expressions, mapping);
    CrtLink {
        id,
        from,
        to,
        kind: clone_opt(&link.kind),
        added: link.added,
        entities,
        source_entities,
        target_entities,
        expressions,
        line,
        text,
    }
}

/// Sanitizes a restatement against the identifiers that the document has.
///
/// Entities first: one whose identifier is malformed, or is new while the
/// document has the identifier already, or repeats an earlier entity of the
/// proposal, gets the smallest free `E<n>`; the others keep theirs. Then the
/// links: a new link always gets the smallest free `L<n>`, and so does one
/// whose identifier is malformed or repeats an earlier link; every
/// reference follows the entities that were renamed, and one that points at
/// no known entity is dropped.
pub fn sanitize_entities_and_links(
    restatement: &mut CrtRestatement,
    existing_entity_ids: &Vec<String>,
    existing_link_ids: &Vec<String>,
)
    ensures
        final(restatement)@ == sanitized(
            old(restatement)@,
            texts(existing_entity_ids@),
            texts(existing_link_ids@),
        ),
{
    let ghost existing = texts(existing_entity_ids@);
    let ghost proposals = restatement@.entities;
    let mut alloc = IdAllocator::new('E', existing_entity_ids);
    let mut mapping = IdMapping::new();
    let mut entities: Vec<CrtEntity> = Vec::new();
    let mut i: usize = 0;
    proof {
        assert(proposals.take(0) == Seq::<CrtEntityView>::empty());
        assert(entity_proposals(entities@) == Seq::<CrtEntityView>::empty());
        assert(entity_ids(Seq::<CrtEntityView>::empty()) == Seq::<Seq<char>>::empty());
        assert(existing + Seq::<Seq<char>>::empty() == existing);
    }
    while i < restatement.entities.len()
        invariant
            i <= restatement.entities.len(),
            restatement == old(restatement),
            existing == texts(existing_entity_ids@),
            proposals == restatement@.entities,
            alloc.wf(),
            alloc.prefix == 'E',
            alloc.used_texts() == existing + entity_ids(entity_proposals(entities@)),
            entity_pass(proposals.take(i as int), existing) == (EntityPass {
                entities: entity_proposals(entities@),
                next: alloc.next as nat,
                rewrites: mapping@,
            }),
        decreases restatement.entities.len() - i,
    {
        let entity = &restatement.entities[i];
        let ghost done = entity_proposals(entities@);
        let ghost earlier = entity_ids(done);
        proof {
            assert(proposals.take(i + 1).drop_last() == proposals.take(i as int));
            assert(proposals.take(i + 1).last() == entity@);
            assert((existing + earlier).skip(existing.len() as int) == earlier);
        }
        let valid = matches_entity_id(&entity.id);
        let in_existing = contains_text(existing_entity_ids, &entity.id);
        let repeats = index_of_text(&alloc.used, existing_entity_ids.len(), &entity.id).is_some();
        if !valid || (in_existing && entity.added) || repeats {
            let new_id = alloc.allocate();
            mapping.insert(entity.id.clone(), new_id.clone());
            let renamed = CrtEntity { id: new_id, text: entity.text.clone(), added: entity.added };
            entities.push(renamed);
            proof {
                assert(entity_proposals(entities@) == done.push(renamed@));
                assert(entity_ids(done.push(renamed@)) == earlier.push(renamed@.id));
                assert((existing + earlier).push(renamed@.id) == existing + earlier.push(
                    renamed@.id,
                ));
            }
        } else {
            alloc.keep(&entity.id);
            let kept = CrtEntity {
                id: entity.id.clone(),
                text: entity.text.clone(),
                added: entity.added,
            };
            entities.push(kept);
            proof {
                assert(kept@ == entity@);
                assert(entity_proposals(entities@) == done.push(kept@));
                assert(entity_ids(done.push(kept@)) == earlier.push(kept@.id));
                assert((existing + earlier).push(kept@.id) == existing + earlier.push(kept@.id));
            }
        }
        i += 1;
    }
    assert(proposals.take(restatement.entities.len() as int) == proposals);
    let known = alloc.used;
    let ghost known_texts = texts(known@);
    let ghost rewrites = mapping@;
    let ghost existing_l = texts(existing_link_ids@);
    let ghost link_inputs = restatement@.links;
    let mut link_alloc = IdAllocator::new('L', existing_link_ids);
    let mut links: Vec<CrtLink> = Vec::new();
    let mut k: usize = 0;
    proof {
        assert(link_inputs.take(0) == Seq::<CrtLinkView>::empty());
        assert(link_proposals(links@) == Seq::<CrtLinkView>::empty());
        assert(link_ids(Seq::<CrtLinkView>::empty()) == Seq::<Seq<char>>::empty());
        assert(existing_l + Seq::<Seq<char>>::empty() == existing_l);
    }
    while k < restatement.links.len()
        invariant
            k <= restatement.links.len(),
            restatement == old(restatement),
            existing_l == texts(existing_link_ids@),
            link_inputs == restatement@.links,
            known_texts == texts(known@),
            rewrites == mapping@,
            link_alloc.wf(),
            link_alloc.prefix == 'L',
            link_alloc.used_texts() == existing_l + link_ids(link_proposals(links@)),
            link_pass(link_inputs.take(k as int), existing_l, rewrites, known_texts) == (LinkPass {
                links: link_proposals(links@),
                next: link_alloc.next as nat,
            }),
        decreases restatement.links.len() - k,
    {
        let link = &restatement.links[k];
        let ghost done = link_proposals(links@);
        let ghost earlier = link_ids(done);
        proof {
            assert(link_inputs.take(k + 1).drop_last() == link_inputs.take(k as int));
            assert(link_inputs.take(k + 1).last() == link@);
            assert((existing_l + earlier).skip(existing_l.len() as int) == earlier);
        }
        let repeats = index_of_text(&link_alloc.used, existing_link_ids.len(), &link.id).is_some();
        let id = if link.added || !matches_link_id(&link.id) || repeats {
            link_alloc.allocate()
        } else {
            link_alloc.keep(&link.id);
            link.id.clone()
        };
        let rewritten = rewrite_link_with(link, id, &mapping, &known);
        links.push(rewritten);
        proof {
            assert(link_proposals(links@) == done.push(rewritten@));
            assert(link_ids(done.push(rewritten@)) == earlier.push(rewritten@.id));
            assert((existing_l + earlier).push(rewritten@.id) == existing_l + earlier.push(
                rewritten@.id,
            ));
        }
        k += 1;
    }
    assert(link_inputs.take(restatement.links.len() as int) == link_inputs);
    restatement.entities = entities;
    restatement.links = links;
}

/// The pattern by which entity identifiers are found in a document.
pub const ENTITY_TOKEN_PATTERN: &'static str = "E\\d+";

/// The pattern by which link identifiers are found in a document.
pub const LINK_TOKEN_PATTERN: &'static str = "L\\d+";

/// The identifiers that `pattern` finds in `content`, each once, in the
/// order in which they first occur; none where the engine refuses the
/// pattern.
pub open spec fn found_ids(pattern: Seq<char>, content: Seq<char>) -> Seq<Seq<char>> {
    match regex_find_all(pattern, content) {
        Some(found) => dedup_texts(found),
        None => Seq::empty(),
    }
}

fn extract_ids(pattern: &str, content: &str) -> (out: Vec<String>)
    ensures
        texts(out@) == found_ids(pattern@, content@),
{
    match find_all(pattern, content) {
        Some(found) => {
            let mut found = found;
            dedup(&mut found);
            found
        },
        None => {
            let out: Vec<String> = Vec::new();
            assert(texts(out@) == Seq::<Seq<char>>::empty());
            out
        },
    }
}

/// The entity identifiers that stand anywhere in a document's text.
pub fn extract_entity_ids(content: &str) -> (out: Vec<String>)
    ensures
        texts(out@) == found_ids(ENTITY_TOKEN_PATTERN@, content@),
{
    extract_ids(ENTITY_TOKEN_PATTERN, content)
}

/// The link identifiers that stand anywhere in a document's text.
pub fn extract_link_ids(content: &str) -> (out: Vec<String>)
    ensures
        texts(out@) == found_ids(LINK_TOKEN_PATTERN@, content@),
{
    extract_ids(LINK_TOKEN_PATTERN, content)
}

impl AgentRefinement {
    /// Sanitizes the proposal's restatement against the entity and link
    /// identifiers that the document has. The analysis is left as it is.
    pub fn sanitize(&mut self, existing_entity_ids: &Vec<String>, existing_link_ids: &Vec<String>)
        ensures
            final(self).crt_restatement@ == sanitized(
                old(self).crt_restatement@,
                texts(existing_entity_ids@),
                texts(existing_link_ids@),
            ),
            final(self).leap_analysis == old(self).leap_analysis,
            final(self).suggested_edits == old(self).suggested_edits,
            final(self).quick_consistency_checks == old(self).quick_consistency_checks,
            final(self).run_id == old(self).run_id,
    {
        sanitize_entities_and_links(
            &mut self.crt_restatement,
            existing_entity_ids,
            existing_link_ids,
        );
    }
}

// ---------------------------------------------------------------------
// What sanitizing guarantees
// ---------------------------------------------------------------------

/// A list without repeats holds no entry twice and exactly the entries of
/// the list it was made from.
pub proof fn lemma_dedup_texts(s: Seq<Seq<char>>)
    ensures
        dedup_texts(s).no_duplicates(),
        dedup_texts(s).len() <= s.len(),
        forall|x: Seq<char>| #[trigger] dedup_texts(s).contains(x) <==> s.contains(x),
    decreases s.len(),
{
    if s.len() > 0 {
        let p = s.drop_last();
        let before = dedup_texts(p);
        let now = dedup_texts(s);
        lemma_dedup_texts(p);
        assert forall|x: Seq<char>| #[trigger] now.contains(x) <==> s.contains(x) by {
            if now.contains(x) {
                let i = choose|i: int| 0 <= i < now.len() && now[i] == x;
                if i < before.len() {
                    assert(before[i] == x);
                    assert(before.contains(x));
                    let k = choose|k: int| 0 <= k < p.len() && p[k] == x;
                    assert(s[k] == x);
                } else {
                    assert(s[s.len() - 1] == x);
                }
            }
            if s.contains(x) {
                let k = choose|k: int| 0 <= k < s.len() && s[k] == x;
                if k < p.len() {
                    assert(p[k] == x);
                    assert(before.contains(x));
                    let i = choose|i: int| 0 <= i < before.len() && before[i] == x;
                    assert(now[i] == x);
                } else if before.contains(x) {
                    let i = choose|i: int| 0 <= i < before.len() && before[i] == x;
                    assert(now[i] == x);
                } else {
                    assert(now[before.len() as int] == x);
                }
            }
        }
    }
}

/// After the entity pass every entity has an identifier of its own: no two
/// entities share one, and one that was changed is not an identifier that
/// the document has. A new entity never keeps an identifier that the
/// document has. Texts and flags are as they were.
pub proof fn lemma_entity_pass(entities: Seq<CrtEntityView>, existing: Seq<Seq<char>>)
    ensures
        entity_pass(entities, existing).entities.len() == entities.len(),
        entity_ids(entity_pass(entities, existing).entities).no_duplicates(),
        forall|i: int|
            0 <= i < entities.len() ==> {
                let old = #[trigger] entities[i];
                let new = entity_pass(entities, existing).entities[i];
                &&& new.text == old.text
                &&& new.added == old.added
                &&& new.id != old.id ==> !existing.contains(new.id) && lookup(
                    entity_pass(entities, existing).rewrites,
                    old.id,
                ) is Some
                &&& old.added ==> !existing.contains(new.id)
            },
    decreases entities.len(),
{
    if entities.len() > 0 {
        let before = entities.drop_last();
        let e = entities.last();
        let p = entity_pass(before, existing);
        let now = entity_pass(entities, existing);
        let earlier = entity_ids(p.entities);
        lemma_entity_pass(before, existing);
        lemma_fresh_index(existing + earlier, 'E', p.next);
        let id = now.entities[before.len() as int].id;
        assert(!earlier.contains(id)) by {
            if earlier.contains(id) {
                let k = choose|k: int| 0 <= k < earlier.len() && earlier[k] == id;
                assert((existing + earlier)[existing.len() + k] == id);
            }
        }
        if entity_needs_fresh_id(e, existing, earlier) {
            assert(!existing.contains(id)) by {
                if existing.contains(id) {
                    let k = choose|k: int| 0 <= k < existing.len() && existing[k] == id;
                    assert((existing + earlier)[k] == id);
                }
            }
        }
        let ids = entity_ids(now.entities);
        assert(ids == earlier.push(id));
        assert forall|i: int, j: int|
            0 <= i < ids.len() && 0 <= j < ids.len() && i != j implies ids[i] != ids[j] by {
            if i < earlier.len() && j < earlier.len() {
                assert(earlier[i] != earlier[j]);
            } else if i < earlier.len() {
                assert(earlier.contains(earlier[i]));
            } else {
                assert(earlier.contains(earlier[j]));
            }
        }
        assert forall|i: int| 0 <= i < entities.len() implies ({
            let old = #[trigger] entities[i];
            let new = now.entities[i];
            &&& new.text == old.text
            &&& new.added == old.added
            &&& new.id != old.id ==> !existing.contains(new.id) && lookup(now.rewrites, old.id)
                is Some
            &&& old.added ==> !existing.contains(new.id)
        }) by {
            if i < before.len() {
                assert(entities[i] == before[i]);
                assert(now.entities[i] == p.entities[i]);
                if p.entities[i].id != before[i].id {
                    lemma_put_keeps(p.rewrites, e.id, id, before[i].id);
                }
            } else {
                lemma_put_keeps(p.rewrites, e.id, id, e.id);
            }
        }
    }
}

proof fn lemma_key_index(m: Rewrites, key: Seq<char>)
    ensures
        0 <= key_index(m, key) <= m.len(),
        key_index(m, key) < m.len() ==> m[key_index(m, key)].0 == key,
        forall|i: int| 0 <= i < key_index(m, key) ==> (#[trigger] m[i]).0 != key,
    decreases m.len(),
{
    if m.len() == 0 || m[0].0 == key {
    } else {
        let r = m.drop_first();
        lemma_key_index(r, key);
        assert forall|i: int| 0 <= i < key_index(m, key) implies (#[trigger] m[i]).0 != key by {
            if i > 0 {
                assert(m[i] == r[i - 1]);
            }
        }
    }
}

proof fn lemma_key_index_found(m: Rewrites, key: Seq<char>, at: int)
    requires
        0 <= at < m.len(),
        m[at].0 == key,
    ensures
        key_index(m, key) <= at,
{
    lemma_key_index(m, key);
}

/// What a map replaces, it still replaces after another entry is put in;
/// and what is put in, it replaces.
proof fn lemma_put_keeps(m: Rewrites, key: Seq<char>, value: Seq<char>, other: Seq<char>)
    ensures
        lookup(m, other) is Some || other == key ==> lookup(put(m, key, value), other) is Some,
        lookup(put(m, key, value), key) == Some(value),
{
    let n = put(m, key, value);
    let i = key_index(m, key);
    lemma_key_index(m, key);
    lemma_key_index(m, other);
    lemma_key_index(n, key);
    lemma_key_index(n, other);
    if i < m.len() {
        assert(n[i].0 == key);
        lemma_key_index_found(n, key, i);
        let k = key_index(n, key);
        if k < i {
            assert(n[k].0 == m[k].0);
        }
    } else {
        assert(n[m.len() as int].0 == key);
        lemma_key_index_found(n, key, m.len() as int);
        let k = key_index(n, key);
        if k < m.len() {
            assert(n[k].0 == m[k].0);
        }
    }
    if lookup(m, other) is Some {
        let j = key_index(m, other);
        assert(n[j].0 == other);
        lemma_key_index_found(n, other, j);
    }
}

/// Every reference that a rewritten list holds may stay.
proof fn lemma_map_refs(ids: Seq<Seq<char>>, m: Rewrites, known: Seq<Seq<char>>)
    ensures
        forall|x: Seq<char>| #[trigger] map_refs(ids, m, known).contains(x) ==> ref_ok(x, known),
    decreases ids.len(),
{
    if ids.len() > 0 {
        let before = map_refs(ids.drop_last(), m, known);
        let now = map_refs(ids, m, known);
        lemma_map_refs(ids.drop_last(), m, known);
        assert forall|x: Seq<char>| #[trigger] now.contains(x) implies ref_ok(x, known) by {
            let i = choose|i: int| 0 <= i < now.len() && now[i] == x;
            if i < before.len() {
                assert(before[i] == x);
                assert(before.contains(x));
            }
        }
    }
}

proof fn lemma_with_ref(list: Seq<Seq<char>>, o: Option<Seq<char>>, known: Seq<Seq<char>>)
    requires
        forall|x: Seq<char>| #[trigger] list.contains(x) ==> ref_ok(x, known),
        o matches Some(id) ==> ref_ok(id, known),
    ensures
        forall|x: Seq<char>| #[trigger] with_ref(list, o).contains(x) ==> ref_ok(x, known),
        o matches Some(id) ==> with_ref(list, o).contains(id),
{
    let now = with_ref(list, o);
    match o {
        Some(id) => {
            if !list.contains(id) {
                assert(now[list.len() as int] == id);
            }
        },
        None => {},
    }
    assert forall|x: Seq<char>| #[trigger] now.contains(x) implies ref_ok(x, known) by {
        let i = choose|i: int| 0 <= i < now.len() && now[i] == x;
        if i < list.len() {
            assert(list[i] == x);
            assert(list.contains(x));
        }
    }
}

/// Whether a link refers to nothing but identifiers that may stay, holds
/// none of them twice in a list, and lists its endpoints.
pub open spec fn link_refs_settled(l: CrtLinkView, known: Seq<Seq<char>>) -> bool {
    &&& forall|x: Seq<char>| #[trigger] l.entities.contains(x) ==> ref_ok(x, known)
    &&& forall|x: Seq<char>| #[trigger] l.source_entities.contains(x) ==> ref_ok(x, known)
    &&& forall|x: Seq<char>| #[trigger] l.target_entities.contains(x) ==> ref_ok(x, known)
    &&& l.from matches Some(id) ==> ref_ok(id, known) && l.source_entities.contains(id)
        && l.entities.contains(id)
    &&& l.to matches Some(id) ==> ref_ok(id, known) && l.target_entities.contains(id)
        && l.entities.contains(id)
    &&& l.entities.no_duplicates()
    &&& l.source_entities.no_duplicates()
    &&& l.target_entities.no_duplicates()
}

/// A rewritten link refers to nothing that is unknown: every reference it
/// keeps is an entity identifier that the document or the proposal has.
pub proof fn lemma_rewrite_link(l: CrtLinkView, id: Seq<char>, m: Rewrites, known: Seq<Seq<char>>)
    ensures
        link_refs_settled(rewrite_link(l, id, m, known), known),
        rewrite_link(l, id, m, known).id == id,
        rewrite_link(l, id, m, known).added == l.added,
        rewrite_link(l, id, m, known).kind == l.kind,
{
    let from = endpoint(l.from, m, known);
    let to = endpoint(l.to, m, known);
    let e0 = map_refs(l.entities, m, known);
    let s0 = map_refs(l.source_entities, m, known);
    let t0 = map_refs(l.target_entities, m, known);
    lemma_map_refs(l.entities, m, known);
    lemma_map_refs(l.source_entities, m, known);
    lemma_map_refs(l.target_entities, m, known);
    lemma_with_ref(e0, from, known);
    let e1 = with_ref(e0, from);
    lemma_with_ref(e1, to, known);
    lemma_with_ref(s0, from, known);
    lemma_with_ref(t0, to, known);
    let e2 = with_ref(e1, to);
    match from {
        Some(f) => {
            let k = choose|k: int| 0 <= k < e1.len() && e1[k] == f;
            assert(e2[k] == f);
        },
        None => {},
    }
    lemma_dedup_texts(e2);
    lemma_dedup_texts(with_ref(s0, from));
    lemma_dedup_texts(with_ref(t0, to));
}

/// After the link pass no two links share an identifier, a link whose
/// identifier was changed has one that the document lacks, a new link never
/// stands under an identifier that the document has, and no link refers to
/// anything unknown.
pub proof fn lemma_link_pass(
    links: Seq<CrtLinkView>,
    existing: Seq<Seq<char>>,
    m: Rewrites,
    known: Seq<Seq<char>>,
)
    ensures
        link_pass(links, existing, m, known).links.len() == links.len(),
        link_ids(link_pass(links, existing, m, known).links).no_duplicates(),
        forall|i: int|
            0 <= i < links.len() ==> {
                let old = #[trigger] links[i];
                let new = link_pass(links, existing, m, known).links[i];
                &&& link_refs_settled(new, known)
                &&& new.added == old.added
                &&& new.id != old.id ==> !existing.contains(new.id)
                &&& old.added ==> !existing.contains(new.id)
            },
    decreases links.len(),
{
    if links.len() > 0 {
        let before = links.drop_last();
        let l = links.last();
        let p = link_pass(before, existing, m, known);
        let now = link_pass(links, existing, m, known);
        let earlier = link_ids(p.links);
        lemma_link_pass(before, existing, m, known);
        lemma_fresh_index(existing + earlier, 'L', p.next);
        let fresh = id_text('L', fresh_index(existing + earlier, 'L', p.next));
        lemma_rewrite_link(l, fresh, m, known);
        lemma_rewrite_link(l, l.id, m, known);
        let id = now.links[before.len() as int].id;
        assert(!earlier.contains(id)) by {
            if earlier.contains(id) {
                let k = choose|k: int| 0 <= k < earlier.len() && earlier[k] == id;
                assert((existing + earlier)[existing.len() + k] == id);
            }
        }
        if link_needs_fresh_id(l, earlier) {
            assert(!existing.contains(id)) by {
                if existing.contains(id) {
                    let k = choose|k: int| 0 <= k < existing.len() && existing[k] == id;
                    assert((existing + earlier)[k] == id);
                }
            }
        }
        let ids = link_ids(now.links);
        assert(ids == earlier.push(id));
        assert forall|i: int, j: int|
            0 <= i < ids.len() && 0 <= j < ids.len() && i != j implies ids[i] != ids[j] by {
            if i < earlier.len() && j < earlier.len() {
                assert(earlier[i] != earlier[j]);
            } else if i < earlier.len() {
                assert(earlier.contains(earlier[i]));
            } else {
                assert(earlier.contains(earlier[j]));
            }
        }
        assert forall|i: int| 0 <= i < links.len() implies ({
            let old = #[trigger] links[i];
            let new = now.links[i];
            &&& link_refs_settled(new, known)
            &&& new.added == old.added
            &&& new.id != old.id ==> !existing.contains(new.id)
            &&& old.added ==> !existing.contains(new.id)
        }) by {
            if i < before.len() {
                assert(links[i] == before[i]);
                assert(now.links[i] == p.links[i]);
            }
        }
    }
}

/// What sanitizing comes to. Every entity and every link of the result has
/// an identifier of its own. An identifier that was changed is one that the
/// document lacks, and a new entity or link never ends up under an
/// identifier that the document has. Every reference of every link is an
/// entity identifier of the document or of the result: none dangles.
pub proof fn lemma_sanitized(
    r: CrtRestatementView,
    existing_entities: Seq<Seq<char>>,
    existing_links: Seq<Seq<char>>,
)
    ensures
        ({
            let out = sanitized(r, existing_entities, existing_links);
            let known = existing_entities + entity_ids(out.entities);
            &&& out.entities.len() == r.entities.len()
            &&& out.links.len() == r.links.len()
            &&& entity_ids(out.entities).no_duplicates()
            &&& link_ids(out.links).no_duplicates()
            &&& forall|i: int|
                0 <= i < r.entities.len() ==> {
                    let old = #[trigger] r.entities[i];
                    let new = out.entities[i];
                    &&& new.text == old.text
                    &&& new.added == old.added
                    &&& new.id != old.id ==> !existing_entities.contains(new.id)
                    &&& old.added ==> !existing_entities.contains(new.id)
                }
            &&& forall|i: int|
                0 <= i < r.links.len() ==> {
                    let old = #[trigger] r.links[i];
                    let new = out.links[i];
                    &&& link_refs_settled(new, known)
                    &&& new.id != old.id ==> !existing_links.contains(new.id)
                    &&& old.added ==> !existing_links.contains(new.id)
                }
        }),
{
    let ep = entity_pass(r.entities, existing_entities);
    let known = existing_entities + entity_ids(ep.entities);
    lemma_entity_pass(r.entities, existing_entities);
    lemma_link_pass(r.links, existing_links, ep.rewrites, known);
}

proof fn lemma_entity_pass_members(
    entities: Seq<CrtEntityView>,
    a: Seq<Seq<char>>,
    b: Seq<Seq<char>>,
)
    requires
        same_members(a, b),
    ensures
        entity_pass(entities, a) == entity_pass(entities, b),
    decreases entities.len(),
{
    if entities.len() == 0 {
        lemma_max_suffix_members(a, b, 'E');
    } else {
        lemma_entity_pass_members(entities.drop_last(), a, b);
        let p = entity_pass(entities.drop_last(), a);
        let earlier = entity_ids(p.entities);
        lemma_same_members_extend(a, b, earlier);
        lemma_fresh_index_members(a + earlier, b + earlier, 'E', p.next);
    }
}

proof fn lemma_map_refs_members(
    ids: Seq<Seq<char>>,
    m: Rewrites,
    a: Seq<Seq<char>>,
    b: Seq<Seq<char>>,
)
    requires
        same_members(a, b),
    ensures
        map_refs(ids, m, a) == map_refs(ids, m, b),
    decreases ids.len(),
{
    if ids.len() > 0 {
        lemma_map_refs_members(ids.drop_last(), m, a, b);
    }
}

proof fn lemma_link_pass_members(
    links: Seq<CrtLinkView>,
    a: Seq<Seq<char>>,
    b: Seq<Seq<char>>,
    m: Rewrites,
    known_a: Seq<Seq<char>>,
    known_b: Seq<Seq<char>>,
)
    requires
        same_members(a, b),
        same_members(known_a, known_b),
    ensures
        link_pass(links, a, m, known_a) == link_pass(links, b, m, known_b),
    decreases links.len(),
{
    if links.len() == 0 {
        lemma_max_suffix_members(a, b, 'L');
    } else {
        lemma_link_pass_members(links.drop_last(), a, b, m, known_a, known_b);
        let p = link_pass(links.drop_last(), a, m, known_a);
        let l = links.last();
        let earlier = link_ids(p.links);
        lemma_same_members_extend(a, b, earlier);
        lemma_fresh_index_members(a + earlier, b + earlier, 'L', p.next);
        lemma_map_refs_members(l.entities, m, known_a, known_b);
        lemma_map_refs_members(l.source_entities, m, known_a, known_b);
        lemma_map_refs_members(l.target_entities, m, known_a, known_b);
    }
}

/// Sanitizing is a function of the proposal and of which identifiers the
/// document has: equal proposals give equal results, in whatever order and
/// however often the document's identifiers are listed.
pub proof fn lemma_sanitize_deterministic(
    r: CrtRestatementView,
    entities_a: Seq<Seq<char>>,
    entities_b: Seq<Seq<char>>,
    links_a: Seq<Seq<char>>,
    links_b: Seq<Seq<char>>,
)
    requires
        same_members(entities_a, entities_b),
        same_members(links_a, links_b),
    ensures
        sanitized(r, entities_a, links_a) == sanitized(r, entities_b, links_b),
{
    lemma_entity_pass_members(r.entities, entities_a, entities_b);
    let ep = entity_pass(r.entities, entities_a);
    lemma_same_members_extend(entities_a, entities_b, entity_ids(ep.entities));
    lemma_link_pass_members(
        r.links,
        links_a,
        links_b,
        ep.rewrites,
        entities_a + entity_ids(ep.entities),
        entities_b + entity_ids(ep.entities),
    );
}

} // verus!
