//! Reader comments attached to paragraphs and code blocks of a book's chapters,
//! kept in reading order.
use vstd::prelude::*;
use crate::text::{
    chars_of, text_eq, text_lt, chars_lt, lemma_text_lt_transitive, lemma_text_lt_asymmetric,
};

verus! {

/// What a comment is attached to.
#[derive(Clone, Copy, Debug, Eq)]
pub enum CommentTarget {
    Paragraph { paragraph_index: usize, word_range: Option<(usize, usize)> },
    CodeBlock {
        paragraph_index: usize,
        /// Inclusive line range within the code block.
        line_range: (usize, usize),
    },
}

impl PartialEq for CommentTarget {
    fn eq(&self, other: &Self) -> (r: bool) {
        match (self, other) {
            (
                CommentTarget::Paragraph { paragraph_index: a, word_range: wa },
                CommentTarget::Paragraph { paragraph_index: b, word_range: wb },
            ) => *a == *b && match (wa, wb) {
                (None, None) => true,
                (Some(x), Some(y)) => x.0 == y.0 && x.1 == y.1,
                _ => false,
            },
            (
                CommentTarget::CodeBlock { paragraph_index: a, line_range: la },
                CommentTarget::CodeBlock { paragraph_index: b, line_range: lb },
            ) => *a == *b && la.0 == lb.0 && la.1 == lb.1,
            _ => false,
        }
    }
}

impl vstd::std_specs::cmp::PartialEqSpecImpl for CommentTarget {
    open spec fn obeys_eq_spec() -> bool {
        true
    }

    open spec fn eq_spec(&self, other: &Self) -> bool {
        *self == *other
    }
}

pub open spec fn target_node(t: CommentTarget) -> usize {
    match t {
        CommentTarget::Paragraph { paragraph_index, .. } => paragraph_index,
        CommentTarget::CodeBlock { paragraph_index, .. } => paragraph_index,
    }
}

pub open spec fn target_kind(t: CommentTarget) -> u8 {
    match t {
        CommentTarget::Paragraph { .. } => 0,
        CommentTarget::CodeBlock { .. } => 1,
    }
}

/// Words of a paragraph comment (0, 0 when the whole paragraph), lines of a
/// code block comment.
pub open spec fn target_secondary(t: CommentTarget) -> (usize, usize) {
    match t {
        CommentTarget::Paragraph { word_range, .. } => match word_range {
            Some(r) => r,
            None => (0, 0),
        },
        CommentTarget::CodeBlock { line_range, .. } => line_range,
    }
}

impl CommentTarget {
    pub fn node_index(&self) -> (n: usize)
        ensures
            n == target_node(*self),
    {
        match self {
            CommentTarget::Paragraph { paragraph_index, .. } => *paragraph_index,
            CommentTarget::CodeBlock { paragraph_index, .. } => *paragraph_index,
        }
    }

    pub fn word_range(&self) -> (r: Option<(usize, usize)>)
        ensures
            r == match *self {
                CommentTarget::Paragraph { word_range, .. } => word_range,
                CommentTarget::CodeBlock { .. } => None,
            },
    {
        match self {
            CommentTarget::Paragraph { word_range, .. } => *word_range,
            CommentTarget::CodeBlock { .. } => None,
        }
    }

    pub fn line_range(&self) -> (r: Option<(usize, usize)>)
        ensures
            r == match *self {
                CommentTarget::Paragraph { .. } => None,
                CommentTarget::CodeBlock { line_range, .. } => Some(line_range),
            },
    {
        match self {
            CommentTarget::Paragraph { .. } => None,
            CommentTarget::CodeBlock { line_range, .. } => Some(*line_range),
        }
    }

    pub fn kind_order(&self) -> (k: u8)
        ensures
            k == target_kind(*self),
    {
        match self {
            CommentTarget::Paragraph { .. } => 0,
            CommentTarget::CodeBlock { .. } => 1,
        }
    }

    pub fn secondary_sort_key(&self) -> (k: (usize, usize))
        ensures
            k == target_secondary(*self),
    {
        match self {
            CommentTarget::Paragraph { word_range, .. } => match word_range {
                Some(r) => *r,
                None => (0, 0),
            },
            CommentTarget::CodeBlock { line_range, .. } => *line_range,
        }
    }
}

/// A point in time: whole seconds since the Unix epoch and the nanoseconds
/// within that second.
#[derive(Clone, Copy, Debug, PartialEq, Eq, Structural)]
pub struct Timestamp {
    pub secs: i64,
    pub nanos: u32,
}

pub open spec fn ts_lt(a: Timestamp, b: Timestamp) -> bool {
    a.secs < b.secs || (a.secs == b.secs && a.nanos < b.nanos)
}

pub open spec fn pair_lt(a: (usize, usize), b: (usize, usize)) -> bool {
    a.0 < b.0 || (a.0 == b.0 && a.1 < b.1)
}

/// A reader's comment.
#[derive(Clone, Debug)]
pub struct Comment {
    pub chapter_href: String,
    pub target: CommentTarget,
    pub content: String,
    pub updated_at: Timestamp,
}

pub struct CommentView {
    pub chapter_href: Seq<char>,
    pub target: CommentTarget,
    pub content: Seq<char>,
    pub updated_at: Timestamp,
}

impl View for Comment {
    type V = CommentView;

    open spec fn view(&self) -> CommentView {
        CommentView {
            chapter_href: self.chapter_href@,
            target: self.target,
            content: self.content@,
            updated_at: self.updated_at,
        }
    }
}

/// Reading order of comments: by chapter, node, kind (paragraph before code
/// block), words or lines, then time of the last change.
pub open spec fn comment_lt(a: CommentView, b: CommentView) -> bool {
    if a.chapter_href != b.chapter_href {
        text_lt(a.chapter_href, b.chapter_href)
    } else if target_node(a.target) != target_node(b.target) {
        target_node(a.target) < target_node(b.target)
    } else if target_kind(a.target) != target_kind(b.target) {
        target_kind(a.target) < target_kind(b.target)
    } else if target_secondary(a.target) != target_secondary(b.target) {
        pair_lt(target_secondary(a.target), target_secondary(b.target))
    } else {
        ts_lt(a.updated_at, b.updated_at)
    }
}

/// The reading order is a strict order.
pub proof fn lemma_comment_lt_transitive(a: CommentView, b: CommentView, c: CommentView)
    requires
        comment_lt(a, b),
        comment_lt(b, c),
    ensures
        comment_lt(a, c),
{
    if a.chapter_href != b.chapter_href && b.chapter_href != c.chapter_href {
        lemma_text_lt_transitive(a.chapter_href, b.chapter_href, c.chapter_href);
        if a.chapter_href == c.chapter_href {
            lemma_text_lt_asymmetric(a.chapter_href, b.chapter_href);
        }
    }
}

pub proof fn lemma_comment_lt_irreflexive(a: CommentView)
    ensures
        !comment_lt(a, a),
{
}

pub proof fn lemma_comment_lt_asymmetric(a: CommentView, b: CommentView)
    requires
        comment_lt(a, b),
    ensures
        !comment_lt(b, a),
{
    if a.chapter_href != b.chapter_href {
        lemma_text_lt_asymmetric(a.chapter_href, b.chapter_href);
    }
}

/// Reading order compares chapters first, then nodes, then kinds, then words
/// or lines, then times: comments of different chapters go by the chapter's
/// name; within a chapter a comment on an earlier node comes first, whatever
/// the kinds; on one node a paragraph comment comes before a code block
/// comment; on one target the smaller range comes first, and on the same range
/// the earlier change.
pub proof fn law_reading_order(a: CommentView, b: CommentView)
    ensures
        a.chapter_href != b.chapter_href ==> (comment_lt(a, b) <==> text_lt(
            a.chapter_href,
            b.chapter_href,
        )),
        a.chapter_href == b.chapter_href && target_node(a.target) < target_node(b.target) ==> comment_lt(
            a,
            b,
        ),
        a.chapter_href == b.chapter_href && target_node(a.target) == target_node(b.target)
            && a.target is Paragraph && b.target is CodeBlock ==> comment_lt(a, b) && !comment_lt(b, a),
        a.chapter_href == b.chapter_href && target_node(a.target) == target_node(b.target) && (a.target
            is Paragraph <==> b.target is Paragraph) && target_secondary(a.target) != target_secondary(
            b.target,
        ) ==> (comment_lt(a, b) <==> pair_lt(target_secondary(a.target), target_secondary(b.target))),
        a.chapter_href == b.chapter_href && target_node(a.target) == target_node(b.target) && (a.target
            is Paragraph <==> b.target is Paragraph) && target_secondary(a.target) == target_secondary(
            b.target,
        ) ==> (comment_lt(a, b) <==> ts_lt(a.updated_at, b.updated_at)),
{
}

/// In a list in reading order, a comment on an earlier node of a chapter
/// stands before every comment on a later node of the same chapter, of either
/// kind; so it is in the list that adding a comment leaves.
pub proof fn law_reading_order_by_node(s: Seq<CommentView>, c: CommentView, i: int, j: int)
    requires
        0 <= i < after_add(s, c).len(),
        0 <= j < after_add(s, c).len(),
        after_add(s, c)[i].chapter_href == after_add(s, c)[j].chapter_href,
        target_node(after_add(s, c)[i].target) < target_node(after_add(s, c)[j].target),
    ensures
        i < j,
{
    let t = after_add(s, c);
    law_add_comment(s, c);
    law_reading_order(t[i], t[j]);
    if j < i {
        assert(!comment_lt(t[i], t[j]));
    }
}

impl Comment {
    pub fn node_index(&self) -> (n: usize)
        ensures
            n == target_node(self.target),
    {
        self.target.node_index()
    }

    pub fn is_paragraph_comment(&self) -> (b: bool)
        ensures
            b == (self.target is Paragraph),
    {
        match self.target {
            CommentTarget::Paragraph { .. } => true,
            CommentTarget::CodeBlock { .. } => false,
        }
    }

    pub fn matches_location(&self, chapter_href: &str, target: &CommentTarget) -> (b: bool)
        ensures
            b == (self.chapter_href@ == chapter_href@ && self.target == *target),
    {
        text_eq(self.chapter_href.as_str(), chapter_href) && self.target == *target
    }

    /// A copy of this comment.
    pub fn duplicate(&self) -> (c: Comment)
        ensures
            c@ == self@,
    {
        Comment {
            chapter_href: self.chapter_href.clone(),
            target: self.target,
            content: self.content.clone(),
            updated_at: self.updated_at,
        }
    }

    /// Whether this comment comes before `other` in reading order.
    pub fn precedes(&self, other: &Comment) -> (b: bool)
        ensures
            b == comment_lt(self@, other@),
    {
        let a = chars_of(self.chapter_href.as_str());
        let b = chars_of(other.chapter_href.as_str());
        if !crate::text::chars_eq(a.as_slice(), b.as_slice()) {
            return chars_lt(a.as_slice(), b.as_slice());
        }
        let na = self.target.node_index();
        let nb = other.target.node_index();
        if na != nb {
            return na < nb;
        }
        let ka = self.target.kind_order();
        let kb = other.target.kind_order();
        if ka != kb {
            return ka < kb;
        }
        let sa = self.target.secondary_sort_key();
        let sb = other.target.secondary_sort_key();
        if sa.0 != sb.0 || sa.1 != sb.1 {
            return sa.0 < sb.0 || (sa.0 == sb.0 && sa.1 < sb.1);
        }
        let ta = self.updated_at;
        let tb = other.updated_at;
        ta.secs < tb.secs || (ta.secs == tb.secs && ta.nanos < tb.nanos)
    }
}

pub open spec fn comments_view(s: Seq<Comment>) -> Seq<CommentView> {
    s.map_values(|c: Comment| c@)
}

/// Comments in reading order: no comment comes before one to its left.
pub open spec fn in_reading_order(s: Seq<CommentView>) -> bool {
    forall|i: int, j: int| 0 <= i < j < s.len() ==> !comment_lt(#[trigger] s[j], #[trigger] s[i])
}

/// Where `c` goes into `s`: before the first comment that `c` comes before.
pub open spec fn insert_pos(s: Seq<CommentView>, c: CommentView) -> int
    decreases s.len(),
{
    if s.len() == 0 {
        0
    } else if comment_lt(c, s[0]) {
        0
    } else {
        1 + insert_pos(s.drop_first(), c)
    }
}

pub open spec fn insert_ordered(s: Seq<CommentView>, c: CommentView) -> Seq<CommentView> {
    s.insert(insert_pos(s, c), c)
}

/// The stable sort of `s` in reading order: each comment in turn inserted after
/// every earlier one that it does not come before.
pub open spec fn sorted_comments(s: Seq<CommentView>) -> Seq<CommentView>
    decreases s.len(),
{
    if s.len() == 0 {
        s
    } else {
        insert_ordered(sorted_comments(s.drop_last()), s.last())
    }
}

pub open spec fn at_location(c: CommentView, chapter_href: Seq<char>, target: CommentTarget) -> bool {
    c.chapter_href == chapter_href && c.target == target
}

/// Index of the first comment at the location, if any.
pub open spec fn first_at(s: Seq<CommentView>, chapter_href: Seq<char>, target: CommentTarget) -> Option<
    int,
>
    decreases s.len(),
{
    if s.len() == 0 {
        None
    } else if at_location(s[0], chapter_href, target) {
        Some(0)
    } else {
        match first_at(s.drop_first(), chapter_href, target) {
            Some(i) => Some(i + 1),
            None => None,
        }
    }
}

/// The comments after `c` is added: a paragraph comment replaces the comment
/// at its location, if there is one; the list is then sorted again.
pub open spec fn after_add(s: Seq<CommentView>, c: CommentView) -> Seq<CommentView> {
    match first_at(s, c.chapter_href, c.target) {
        Some(i) if c.target is Paragraph => sorted_comments(s.update(i, c)),
        _ => sorted_comments(s.push(c)),
    }
}

/// The comments after the first one at the location gets new content and time.
pub open spec fn after_update(
    s: Seq<CommentView>,
    chapter_href: Seq<char>,
    target: CommentTarget,
    content: Seq<char>,
    now: Timestamp,
) -> Seq<CommentView> {
    match first_at(s, chapter_href, target) {
        Some(i) => s.update(i, CommentView { content, updated_at: now, ..s[i] }),
        None => s,
    }
}

/// The comments after the first one at the location is removed.
pub open spec fn after_delete(s: Seq<CommentView>, chapter_href: Seq<char>, target: CommentTarget) -> Seq<
    CommentView,
> {
    match first_at(s, chapter_href, target) {
        Some(i) => s.remove(i),
        None => s,
    }
}

/// The comments of one node of a chapter, in list order.
pub open spec fn node_comments(s: Seq<CommentView>, chapter_href: Seq<char>, node: usize) -> Seq<
    CommentView,
> {
    s.filter(|c: CommentView| c.chapter_href == chapter_href && target_node(c.target) == node)
}

/// The comments of one chapter, in list order.
pub open spec fn chapter_comments(s: Seq<CommentView>, chapter_href: Seq<char>) -> Seq<CommentView> {
    s.filter(|c: CommentView| c.chapter_href == chapter_href)
}

/// Two comments on the same paragraph location.
pub open spec fn same_paragraph(a: CommentView, b: CommentView) -> bool {
    a.target is Paragraph && a.chapter_href == b.chapter_href && a.target == b.target
}

/// No paragraph location holds two comments.
pub open spec fn unique_paragraphs(s: Seq<CommentView>) -> bool {
    forall|i: int, j: int|
        0 <= i < s.len() && 0 <= j < s.len() && i != j ==> !same_paragraph(
            #[trigger] s[i],
            #[trigger] s[j],
        )
}

pub proof fn lemma_first_at(s: Seq<CommentView>, chapter_href: Seq<char>, target: CommentTarget)
    ensures
        match first_at(s, chapter_href, target) {
            Some(i) => 0 <= i < s.len() && at_location(s[i], chapter_href, target) && forall|j: int|
                0 <= j < i ==> !at_location(#[trigger] s[j], chapter_href, target),
            None => forall|j: int| 0 <= j < s.len() ==> !at_location(#[trigger] s[j], chapter_href, target),
        },
    decreases s.len(),
{
    if s.len() > 0 {
        lemma_first_at(s.drop_first(), chapter_href, target);
        assert forall|j: int| 0 < j < s.len() implies s[j] == s.drop_first()[j - 1] by {}
    }
}

pub proof fn lemma_insert_pos(s: Seq<CommentView>, c: CommentView)
    ensures
        0 <= insert_pos(s, c) <= s.len(),
        forall|j: int| 0 <= j < insert_pos(s, c) ==> !comment_lt(c, #[trigger] s[j]),
        insert_pos(s, c) < s.len() ==> comment_lt(c, s[insert_pos(s, c)]),
    decreases s.len(),
{
    if s.len() > 0 && !comment_lt(c, s[0]) {
        lemma_insert_pos(s.drop_first(), c);
        assert forall|j: int| 0 < j < s.len() implies s[j] == s.drop_first()[j - 1] by {}
    }
}

/// Inserting at its place keeps a list in reading order.
pub proof fn lemma_insert_ordered(s: Seq<CommentView>, c: CommentView)
    requires
        in_reading_order(s),
    ensures
        in_reading_order(insert_ordered(s, c)),
{
    lemma_insert_pos(s, c);
    let p = insert_pos(s, c);
    let r = insert_ordered(s, c);
    assert forall|i: int, j: int| 0 <= i < j < r.len() implies !comment_lt(
        #[trigger] r[j],
        #[trigger] r[i],
    ) by {
        if j < p {
            assert(r[i] == s[i] && r[j] == s[j]);
        } else if j == p {
            assert(r[i] == s[i]);
        } else if i > p {
            assert(r[i] == s[i - 1] && r[j] == s[j - 1]);
        } else if i == p {
            assert(r[j] == s[j - 1]);
            assert(comment_lt(c, s[p]));
            if comment_lt(s[j - 1], c) {
                lemma_comment_lt_transitive(s[j - 1], c, s[p]);
                if j - 1 > p {
                    assert(!comment_lt(s[j - 1], s[p]));
                } else {
                    lemma_comment_lt_irreflexive(s[p]);
                }
            }
        } else {
            assert(r[i] == s[i] && r[j] == s[j - 1]);
        }
    }
}

/// The sorted list holds the same comments, in reading order.
pub proof fn lemma_sorted_comments(s: Seq<CommentView>)
    ensures
        in_reading_order(sorted_comments(s)),
        sorted_comments(s).to_multiset() == s.to_multiset(),
        sorted_comments(s).len() == s.len(),
    decreases s.len(),
{
    broadcast use vstd::seq_lib::to_multiset_build, vstd::seq_lib::to_multiset_insert;

    if s.len() > 0 {
        let t = sorted_comments(s.drop_last());
        lemma_sorted_comments(s.drop_last());
        lemma_insert_ordered(t, s.last());
        lemma_insert_pos(t, s.last());
        assert(s.drop_last().push(s.last()) =~= s);
    }
}

pub proof fn lemma_unique_insert(t: Seq<CommentView>, p: int, c: CommentView)
    requires
        unique_paragraphs(t),
        0 <= p <= t.len(),
        forall|k: int|
            0 <= k < t.len() ==> !same_paragraph(#[trigger] t[k], c) && !same_paragraph(c, t[k]),
    ensures
        unique_paragraphs(t.insert(p, c)),
{
    let r = t.insert(p, c);
    assert forall|i: int, j: int|
        0 <= i < r.len() && 0 <= j < r.len() && i != j implies !same_paragraph(
        #[trigger] r[i],
        #[trigger] r[j],
    ) by {
        let ti = if i < p { i } else { i - 1 };
        let tj = if j < p { j } else { j - 1 };
        if i != p && j != p {
            assert(r[i] == t[ti] && r[j] == t[tj]);
        } else if i == p {
            assert(r[j] == t[tj]);
        } else {
            assert(r[i] == t[ti]);
        }
    }
}

/// Sorting keeps paragraph locations unique.
pub proof fn lemma_unique_sorted(u: Seq<CommentView>)
    requires
        unique_paragraphs(u),
    ensures
        unique_paragraphs(sorted_comments(u)),
    decreases u.len(),
{
    broadcast use vstd::seq_lib::to_multiset_contains;

    if u.len() > 0 {
        let d = u.drop_last();
        let c = u.last();
        assert(unique_paragraphs(d)) by {
            assert forall|i: int, j: int|
                0 <= i < d.len() && 0 <= j < d.len() && i != j implies !same_paragraph(
                #[trigger] d[i],
                #[trigger] d[j],
            ) by {
                assert(d[i] == u[i] && d[j] == u[j]);
            }
        }
        lemma_unique_sorted(d);
        lemma_sorted_comments(d);
        let t = sorted_comments(d);
        assert forall|k: int| 0 <= k < t.len() implies !same_paragraph(#[trigger] t[k], c)
            && !same_paragraph(c, t[k]) by {
            assert(t.contains(t[k]));
            assert(t.to_multiset().count(t[k]) > 0);
            assert(d.contains(t[k]));
            let m = choose|m: int| 0 <= m < d.len() && d[m] == t[k];
            assert(u[m] == t[k]);
            assert(u[u.len() - 1] == c);
        }
        lemma_insert_pos(t, c);
        lemma_unique_insert(t, insert_pos(t, c), c);
    }
}

/// After any addition the comments are in reading order, the added comment
/// is among them, and the count is one more, or the same when a paragraph
/// comment replaced the one at its location.
pub proof fn law_add_comment(s: Seq<CommentView>, c: CommentView)
    ensures
        in_reading_order(after_add(s, c)),
        after_add(s, c).contains(c),
        after_add(s, c).len() == if c.target is Paragraph && first_at(
            s,
            c.chapter_href,
            c.target,
        ) is Some {
            s.len()
        } else {
            s.len() + 1
        },
        forall|e: CommentView|
            s.contains(e) && !(c.target is Paragraph && at_location(e, c.chapter_href, c.target))
                ==> #[trigger] after_add(s, c).contains(e),
{
    broadcast use vstd::seq_lib::to_multiset_contains, vstd::seq_lib::to_multiset_build;

    lemma_first_at(s, c.chapter_href, c.target);
    match first_at(s, c.chapter_href, c.target) {
        Some(i) if c.target is Paragraph => {
            let u = s.update(i, c);
            lemma_sorted_comments(u);
            assert(u[i] == c);
            assert(u.contains(c));
            assert(u.to_multiset().count(c) > 0);
            assert(sorted_comments(u).to_multiset().count(c) > 0);
            assert forall|e: CommentView|
                s.contains(e) && !(c.target is Paragraph && at_location(e, c.chapter_href, c.target))
                    implies #[trigger] after_add(s, c).contains(e) by {
                let m = choose|m: int| 0 <= m < s.len() && s[m] == e;
                assert(m != i);
                assert(u[m] == e);
                assert(u.contains(e));
                assert(u.to_multiset().count(e) > 0);
                assert(sorted_comments(u).to_multiset().count(e) > 0);
            }
        },
        _ => {
            let u = s.push(c);
            lemma_sorted_comments(u);
            assert(u[s.len() as int] == c);
            assert(u.contains(c));
            assert(u.to_multiset().count(c) > 0);
            assert(sorted_comments(u).to_multiset().count(c) > 0);
            assert forall|e: CommentView| s.contains(e) implies #[trigger] after_add(s, c).contains(
                e,
            ) by {
                let m = choose|m: int| 0 <= m < s.len() && s[m] == e;
                assert(u[m] == e);
                assert(u.contains(e));
                assert(u.to_multiset().count(e) > 0);
                assert(sorted_comments(u).to_multiset().count(e) > 0);
            }
        },
    }
}

/// Adding a comment never puts two comments on one paragraph location.
pub proof fn law_add_keeps_paragraphs_unique(s: Seq<CommentView>, c: CommentView)
    requires
        unique_paragraphs(s),
    ensures
        unique_paragraphs(after_add(s, c)),
{
    lemma_first_at(s, c.chapter_href, c.target);
    match first_at(s, c.chapter_href, c.target) {
        Some(i) if c.target is Paragraph => {
            let u = s.update(i, c);
            assert forall|a: int, b: int|
                0 <= a < u.len() && 0 <= b < u.len() && a != b implies !same_paragraph(
                #[trigger] u[a],
                #[trigger] u[b],
            ) by {
                assert(!same_paragraph(s[a], s[b]));
            }
            lemma_unique_sorted(u);
        },
        _ => {
            let u = s.push(c);
            assert forall|a: int, b: int|
                0 <= a < u.len() && 0 <= b < u.len() && a != b implies !same_paragraph(
                #[trigger] u[a],
                #[trigger] u[b],
            ) by {
                if a < s.len() && b < s.len() {
                    assert(!same_paragraph(s[a], s[b]));
                } else if a < s.len() {
                    assert(u[b] == c);
                    assert(!at_location(s[a], c.chapter_href, c.target) || !(c.target is Paragraph));
                } else {
                    assert(u[a] == c);
                    assert(!at_location(s[b], c.chapter_href, c.target) || !(c.target is Paragraph));
                }
            }
            lemma_unique_sorted(u);
        },
    }
}

/// Deleting removes exactly the first comment at the location and keeps the
/// order of the rest; when paragraph locations are unique, no comment is left
/// at a deleted paragraph location.
pub proof fn law_delete_comment(s: Seq<CommentView>, chapter_href: Seq<char>, target: CommentTarget)
    requires
        first_at(s, chapter_href, target) is Some,
    ensures
        after_delete(s, chapter_href, target).len() == s.len() - 1,
        in_reading_order(s) ==> in_reading_order(after_delete(s, chapter_href, target)),
        unique_paragraphs(s) && target is Paragraph ==> forall|k: int|
            0 <= k < s.len() - 1 ==> !at_location(
                #[trigger] after_delete(s, chapter_href, target)[k],
                chapter_href,
                target,
            ),
{
    lemma_first_at(s, chapter_href, target);
    let i = first_at(s, chapter_href, target)->0;
    let r = s.remove(i);
    assert forall|k: int| 0 <= k < r.len() implies #[trigger] r[k] == s[if k < i { k } else { k + 1 }] by {}
    if in_reading_order(s) {
        assert forall|a: int, b: int| 0 <= a < b < r.len() implies !comment_lt(
            #[trigger] r[b],
            #[trigger] r[a],
        ) by {
            let sa = if a < i { a } else { a + 1 };
            let sb = if b < i { b } else { b + 1 };
            assert(r[a] == s[sa] && r[b] == s[sb]);
        }
    }
    if unique_paragraphs(s) && target is Paragraph {
        assert forall|k: int| 0 <= k < s.len() - 1 implies !at_location(
            #[trigger] r[k],
            chapter_href,
            target,
        ) by {
            let sk = if k < i { k } else { k + 1 };
            assert(r[k] == s[sk]);
            assert(!same_paragraph(s[sk], s[i]));
        }
    }
}

/// An update changes the content and time of the first comment at the
/// location and nothing else.
pub proof fn law_update_comment(
    s: Seq<CommentView>,
    chapter_href: Seq<char>,
    target: CommentTarget,
    content: Seq<char>,
    now: Timestamp,
)
    requires
        first_at(s, chapter_href, target) is Some,
    ensures
        ({
            let r = after_update(s, chapter_href, target, content, now);
            let i = first_at(s, chapter_href, target)->0;
            &&& r.len() == s.len()
            &&& first_at(r, chapter_href, target) == Some(i)
            &&& r[i].content == content && r[i].updated_at == now
            &&& r[i].chapter_href == s[i].chapter_href && r[i].target == s[i].target
            &&& forall|k: int| 0 <= k < s.len() && k != i ==> #[trigger] r[k] == s[k]
        }),
{
    lemma_first_at(s, chapter_href, target);
    let r = after_update(s, chapter_href, target, content, now);
    lemma_first_at(r, chapter_href, target);
    let i = first_at(s, chapter_href, target)->0;
    match first_at(r, chapter_href, target) {
        Some(j) => {
            if j < i {
                assert(r[j] == s[j]);
            } else if j > i {
                assert(at_location(r[i], chapter_href, target));
            }
        },
        None => {
            assert(at_location(r[i], chapter_href, target));
        },
    }
}

/// Why a comment operation was refused.
#[derive(Clone, Copy, Debug, PartialEq, Eq, Structural)]
pub enum CommentError {
    /// No comment at the given location.
    NotFound,
}

impl CommentError {
    /// The message shown for this error.
    pub fn message(&self) -> (s: String)
        ensures
            s@ == "Comment not found"@,
    {
        String::from_str("Comment not found")
    }
}

/// The comments of a book.
pub struct BookComments {
    comments: Vec<Comment>,
}

impl View for BookComments {
    type V = Seq<CommentView>;

    closed spec fn view(&self) -> Seq<CommentView> {
        comments_view(self.comments@)
    }
}

/// The moment of the call (`chrono::Utc::now`), as seconds and nanoseconds.
/// The clock's value is not stated; only that the nanoseconds stay below two
/// seconds, as chrono documents for `timestamp_subsec_nanos`.
#[verifier::external_body]
fn current_time() -> (t: Timestamp)
    ensures
        t.nanos < 2_000_000_000,
{
    let now = chrono::Utc::now();
    Timestamp { secs: now.timestamp(), nanos: now.timestamp_subsec_nanos() }
}

/// `comments` stably sorted in reading order.
fn sort_in_reading_order(comments: Vec<Comment>) -> (r: Vec<Comment>)
    ensures
        comments_view(r@) == sorted_comments(comments_view(comments@)),
{
    let ghost orig = comments_view(comments@);
    let mut src = comments;
    let mut out: Vec<Comment> = Vec::new();
    let ghost mut k: int = 0;
    proof {
        assert(orig.take(0) =~= Seq::<CommentView>::empty());
        assert(comments_view(out@) =~= Seq::<CommentView>::empty());
        assert(comments_view(src@) =~= orig.skip(0));
    }
    while src.len() > 0
        invariant
            0 <= k <= orig.len(),
            comments_view(out@) == sorted_comments(orig.take(k)),
            comments_view(src@) == orig.skip(k),
        decreases src@.len(),
    {
        let ghost before_src = src@;
        proof {
            assert(comments_view(before_src).len() > 0);
            assert(k < orig.len());
        }
        let c = src.remove(0);
        proof {
            assert(orig.skip(k)[0] == comments_view(before_src)[0]);
            assert(orig.skip(k)[0] == c@);
            assert forall|j: int| 0 <= j < src@.len() implies comments_view(src@)[j] == orig.skip(
                k + 1,
            )[j] by {
                assert(src@[j] == before_src[j + 1]);
                assert(comments_view(before_src)[j + 1] == orig.skip(k)[j + 1]);
            }
            assert(comments_view(src@) =~= orig.skip(k + 1));
            assert(orig.take(k + 1).drop_last() =~= orig.take(k));
            assert(orig.take(k + 1).last() == c@);
        }
        let p = insert_position(&out, &c);
        let ghost before = out@;
        out.insert(p, c);
        proof {
            assert(comments_view(out@) =~= comments_view(before).insert(p as int, c@));
            k = k + 1;
        }
    }
    proof {
        assert(orig.skip(k).len() == 0);
        assert(orig.take(k) =~= orig);
    }
    out
}

/// Where `c` goes into the sorted `out`.
fn insert_position(out: &Vec<Comment>, c: &Comment) -> (p: usize)
    ensures
        p == insert_pos(comments_view(out@), c@),
        p <= out@.len(),
{
    let ghost v = comments_view(out@);
    let mut p: usize = 0;
    while p < out.len() && !c.precedes(&out[p])
        invariant
            v == comments_view(out@),
            p <= out@.len(),
            forall|j: int| 0 <= j < p ==> !comment_lt(c@, #[trigger] v[j]),
        decreases out@.len() - p,
    {
        p += 1;
    }
    proof {
        lemma_insert_pos(v, c@);
        let q = insert_pos(v, c@);
        if q < p {
            assert(!comment_lt(c@, v[q]));
        }
        if p < q {
            assert(comment_lt(c@, v[p as int]));
        }
    }
    p
}

impl BookComments {
    /// No comments.
    pub fn empty() -> (r: Self)
        ensures
            r@ == Seq::<CommentView>::empty(),
    {
        let r = BookComments { comments: Vec::new() };
        proof {
            assert(r@ =~= Seq::<CommentView>::empty());
        }
        r
    }

    /// The comments as they were stored, in their stored order.
    pub fn from_comments(comments: Vec<Comment>) -> (r: Self)
        ensures
            r@ == comments_view(comments@),
    {
        BookComments { comments }
    }

    fn find_comment_index(&self, chapter_href: &str, target: &CommentTarget) -> (r: Option<usize>)
        ensures
            match first_at(self@, chapter_href@, *target) {
                Some(i) => r matches Some(k) && k as int == i,
                None => r is None,
            },
    {
        let ghost v = self@;
        let mut k: usize = 0;
        while k < self.comments.len()
            invariant
                v == comments_view(self.comments@),
                k <= self.comments@.len(),
                forall|j: int| 0 <= j < k ==> !at_location(#[trigger] v[j], chapter_href@, *target),
            decreases self.comments@.len() - k,
        {
            if self.comments[k].matches_location(chapter_href, target) {
                proof {
                    lemma_first_at(v, chapter_href@, *target);
                    assert(at_location(v[k as int], chapter_href@, *target));
                    match first_at(v, chapter_href@, *target) {
                        Some(i) => {
                            if i < k {
                                assert(!at_location(v[i], chapter_href@, *target));
                            }
                        },
                        None => {},
                    }
                }
                return Some(k);
            }
            k += 1;
        }
        proof {
            lemma_first_at(v, chapter_href@, *target);
        }
        None
    }

    /// Adds a comment; a paragraph comment replaces the one at its location.
    /// The comments are then sorted in reading order.
    pub fn add_comment(&mut self, comment: Comment)
        ensures
            final(self)@ == after_add(old(self)@, comment@),
    {
        let ghost s = self@;
        let found = self.find_comment_index(comment.chapter_href.as_str(), &comment.target);
        proof {
            lemma_first_at(s, comment@.chapter_href, comment@.target);
        }
        let is_paragraph = comment.is_paragraph_comment();
        let ghost cv = comment@;
        let mut list: Vec<Comment> = Vec::new();
        std::mem::swap(&mut list, &mut self.comments);
        proof {
            assert(comments_view(list@) == s);
        }
        match found {
            Some(idx) if is_paragraph => {
                list[idx] = comment;
                proof {
                    assert(comments_view(list@) =~= s.update(idx as int, cv));
                    assert(after_add(s, cv) == sorted_comments(s.update(idx as int, cv)));
                }
            },
            _ => {
                list.push(comment);
                proof {
                    assert(comments_view(list@) =~= s.push(cv));
                    assert(after_add(s, cv) == sorted_comments(s.push(cv)));
                }
            },
        }
        self.comments = sort_in_reading_order(list);
    }

    /// Gives the first comment at the location new content, changed at `now`.
    pub fn update_comment_at(
        &mut self,
        chapter_href: &str,
        target: &CommentTarget,
        new_content: String,
        now: Timestamp,
    ) -> (r: Result<(), CommentError>)
        ensures
            r is Ok <==> first_at(old(self)@, chapter_href@, *target) is Some,
            r is Err ==> r == Err::<(), CommentError>(CommentError::NotFound),
            final(self)@ == after_update(old(self)@, chapter_href@, *target, new_content@, now),
    {
        let ghost s = self@;
        proof {
            lemma_first_at(s, chapter_href@, *target);
        }
        match self.find_comment_index(chapter_href, target) {
            None => Err(CommentError::NotFound),
            Some(idx) => {
                let ghost nc = new_content@;
                self.comments[idx].content = new_content;
                self.comments[idx].updated_at = now;
                proof {
                    assert(self@ =~= s.update(
                        idx as int,
                        CommentView { content: nc, updated_at: now, ..s[idx as int] },
                    ));
                }
                Ok(())
            },
        }
    }

    /// Gives the first comment at the location new content, changed now.
    pub fn update_comment(&mut self, chapter_href: &str, target: &CommentTarget, new_content: String) -> (r:
        Result<(), CommentError>)
        ensures
            r is Ok <==> first_at(old(self)@, chapter_href@, *target) is Some,
            r is Err ==> r == Err::<(), CommentError>(CommentError::NotFound),
            exists|now: Timestamp|
                final(self)@ == after_update(old(self)@, chapter_href@, *target, new_content@, now),
    {
        let now = current_time();
        self.update_comment_at(chapter_href, target, new_content, now)
    }

    /// Removes the first comment at the location.
    pub fn delete_comment(&mut self, chapter_href: &str, target: &CommentTarget) -> (r: Result<
        (),
        CommentError,
    >)
        ensures
            r is Ok <==> first_at(old(self)@, chapter_href@, *target) is Some,
            r is Err ==> r == Err::<(), CommentError>(CommentError::NotFound),
            final(self)@ == after_delete(old(self)@, chapter_href@, *target),
    {
        let ghost s = self@;
        proof {
            lemma_first_at(s, chapter_href@, *target);
        }
        match self.find_comment_index(chapter_href, target) {
            None => Err(CommentError::NotFound),
            Some(idx) => {
                let _removed = self.comments.remove(idx);
                proof {
                    assert(self@ =~= s.remove(idx as int));
                }
                Ok(())
            },
        }
    }

    /// The comments of one node of a chapter.
    pub fn get_node_comments(&self, chapter_href: &str, node_index: usize) -> (r: Vec<&Comment>)
        ensures
            r@.map_values(|c: &Comment| c@) == node_comments(self@, chapter_href@, node_index),
    {
        let ghost v = self@;
        let ghost pred = |c: CommentView| c.chapter_href == chapter_href@ && target_node(c.target)
            == node_index;
        let mut out: Vec<&Comment> = Vec::new();
        let mut k: usize = 0;
        proof {
            reveal(Seq::filter);
            assert(v.take(0).filter(pred) =~= Seq::<CommentView>::empty());
            assert(out@.map_values(|c: &Comment| c@) =~= Seq::<CommentView>::empty());
        }
        while k < self.comments.len()
            invariant
                v == comments_view(self.comments@),
                pred == (|c: CommentView| c.chapter_href == chapter_href@ && target_node(c.target)
                    == node_index),
                k <= self.comments@.len(),
                out@.map_values(|c: &Comment| c@) == v.take(k as int).filter(pred),
            decreases self.comments@.len() - k,
        {
            let c = &self.comments[k];
            let ghost before = out@;
            proof {
                assert(v.take(k + 1) =~= v.take(k as int).push(c@));
                v.take(k as int).lemma_filter_push(c@, pred);
            }
            if text_eq(c.chapter_href.as_str(), chapter_href) && c.node_index() == node_index {
                out.push(c);
                proof {
                    assert(out@.map_values(|c: &Comment| c@) =~= before.map_values(
                        |c: &Comment| c@,
                    ).push(c@));
                }
            }
            k += 1;
        }
        proof {
            assert(v.take(k as int) =~= v);
        }
        out
    }

    /// The comments of one chapter, in reading order when the list is sorted.
    pub fn get_chapter_comments(&self, chapter_href: &str) -> (r: Vec<&Comment>)
        ensures
            r@.map_values(|c: &Comment| c@) == chapter_comments(self@, chapter_href@),
    {
        let ghost v = self@;
        let ghost pred = |c: CommentView| c.chapter_href == chapter_href@;
        let mut out: Vec<&Comment> = Vec::new();
        let mut k: usize = 0;
        proof {
            reveal(Seq::filter);
            assert(v.take(0).filter(pred) =~= Seq::<CommentView>::empty());
            assert(out@.map_values(|c: &Comment| c@) =~= Seq::<CommentView>::empty());
        }
        while k < self.comments.len()
            invariant
                v == comments_view(self.comments@),
                pred == (|c: CommentView| c.chapter_href == chapter_href@),
                k <= self.comments@.len(),
                out@.map_values(|c: &Comment| c@) == v.take(k as int).filter(pred),
            decreases self.comments@.len() - k,
        {
            let c = &self.comments[k];
            let ghost before = out@;
            proof {
                assert(v.take(k + 1) =~= v.take(k as int).push(c@));
                v.take(k as int).lemma_filter_push(c@, pred);
            }
            if text_eq(c.chapter_href.as_str(), chapter_href) {
                out.push(c);
                proof {
                    assert(out@.map_values(|c: &Comment| c@) =~= before.map_values(
                        |c: &Comment| c@,
                    ).push(c@));
                }
            }
            k += 1;
        }
        proof {
            assert(v.take(k as int) =~= v);
        }
        out
    }

    /// All comments, in list order.
    pub fn get_all_comments(&self) -> (r: &[Comment])
        ensures
            comments_view(r@) == self@,
    {
        self.comments.as_slice()
    }
}

/// What `md5::compute` gives for the bytes: the MD5 digest.
pub uninterp spec fn md5_digest(data: Seq<u8>) -> Seq<u8>;

/// The MD5 digest of `data` (`md5::compute`), as its 16 bytes
/// (`md5::Digest` holds a `[u8; 16]`).
#[verifier::external_body]
fn md5_bytes(data: &[u8]) -> (r: Vec<u8>)
    ensures
        r@ == md5_digest(data@),
        r@.len() == 16,
{
    md5::compute(data).0.to_vec()
}

pub open spec fn hex_digits() -> Seq<char> {
    "0123456789abcdef"@
}

/// Each byte as two lower-case hexadecimal digits, high digit first.
pub open spec fn hex_lower(bytes: Seq<u8>) -> Seq<char>
    decreases bytes.len(),
{
    if bytes.len() == 0 {
        Seq::empty()
    } else {
        hex_lower(bytes.drop_last()) + seq![
            hex_digits()[bytes.last() as int / 16],
            hex_digits()[bytes.last() as int % 16],
        ]
    }
}

/// The name of a book's comments file, from the book's file name: the MD5
/// digest of the name's UTF-8 bytes in hexadecimal.
pub open spec fn comments_file_name_of(book_file_name: Seq<char>) -> Seq<char> {
    "book_"@ + hex_lower(md5_digest(vstd::utf8::encode_utf8(book_file_name))) + ".yaml"@
}

/// The MD5 digest of the book's file name, in lower-case hexadecimal.
pub fn book_hash(book_file_name: &str) -> (r: String)
    ensures
        r@ == hex_lower(md5_digest(vstd::utf8::encode_utf8(book_file_name@))),
{
    let bytes = book_file_name.as_bytes();
    let digest = md5_bytes(bytes);
    let digits = chars_of("0123456789abcdef");
    proof {
        reveal_strlit("0123456789abcdef");
    }
    let mut out: Vec<char> = Vec::new();
    let mut k: usize = 0;
    proof {
        assert(digest@.take(0) =~= Seq::<u8>::empty());
    }
    while k < digest.len()
        invariant
            digits@ == hex_digits(),
            digits@.len() == 16,
            k <= digest@.len(),
            out@ == hex_lower(digest@.take(k as int)),
        decreases digest@.len() - k,
    {
        let b = digest[k];
        proof {
            assert(digest@.take(k + 1).drop_last() =~= digest@.take(k as int));
            assert(digest@.take(k + 1).last() == b);
        }
        out.push(digits[(b / 16) as usize]);
        out.push(digits[(b % 16) as usize]);
        proof {
            assert(out@ =~= hex_lower(digest@.take(k + 1)));
        }
        k += 1;
    }
    proof {
        assert(digest@.take(k as int) =~= digest@);
    }
    crate::text::string_from_chars(out.as_slice())
}

/// The name of the file that holds a book's comments.
pub fn comments_file_name(book_file_name: &str) -> (r: String)
    ensures
        r@ == comments_file_name_of(book_file_name@),
{
    let hash = book_hash(book_file_name);
    let mut out = chars_of("book_");
    let h = chars_of(hash.as_str());
    crate::text::push_all(&mut out, h.as_slice());
    let tail = chars_of(".yaml");
    crate::text::push_all(&mut out, tail.as_slice());
    crate::text::string_from_chars(out.as_slice())
}

} // verus!
