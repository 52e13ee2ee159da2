//! Splitting a text into sections at its markdown headings.
use std::str::Chars;
use vstd::prelude::*;
use vstd::string::*;
use vstd::utf8::*;

use crate::text;
use crate::text::{byte_len, char_width, slice};
use crate::white;
use crate::white::{char_vec, is_white_space};

verus! {

/// A section as its title, if it has one, and its text.
pub type SectionView = (Option<Seq<char>>, Seq<char>);

// ---------------------------------------------------------------------------
// Model
// ---------------------------------------------------------------------------

/// Being a `#`, as a predicate value.
pub open spec fn hash_mark() -> spec_fn(char) -> bool {
    |c: char| c == '#'
}

/// The title of a heading line: white space, one to six `#`, a space, and the title,
/// which is trimmed. `None` for any other line.
pub open spec fn heading_title(line: Seq<char>) -> Option<Seq<char>> {
    let t = white::trim_start(line);
    let h = white::leading(t, hash_mark()) as int;
    if 1 <= h <= 6 && h < t.len() && t[h] == ' ' {
        Some(white::trim(t.skip(h)))
    } else {
        None
    }
}

/// The length of the first line of `text`, its line break counted.
pub open spec fn line_len(text: Seq<char>) -> nat
    decreases text.len(),
{
    if text.len() == 0 {
        0
    } else if text[0] == '\n' {
        1
    } else {
        1 + line_len(text.drop_first())
    }
}

/// The lines of `text`, each with its line break.
pub open spec fn lines(text: Seq<char>) -> Seq<Seq<char>>
    decreases text.len(),
{
    if text.len() == 0 {
        Seq::empty()
    } else {
        proof {
            lemma_line_len(text);
        }
        seq![text.take(line_len(text) as int)] + lines(text.skip(line_len(text) as int))
    }
}

/// The section with this title and body, if there is any body.
pub open spec fn one_section(title: Option<Seq<char>>, body: Seq<char>) -> Seq<SectionView> {
    if body.len() > 0 {
        seq![(title, body)]
    } else {
        Seq::empty()
    }
}

/// The sections of lines that follow a section begun with `title` and `body`: a
/// heading line begins a section, any other line belongs to the one begun last.
pub open spec fn grouped(
    lines: Seq<Seq<char>>,
    title: Option<Seq<char>>,
    body: Seq<char>,
) -> Seq<SectionView>
    decreases lines.len(),
{
    if lines.len() == 0 {
        one_section(title, body)
    } else {
        let line = lines[0];
        let rest = lines.drop_first();
        match heading_title(line) {
            Some(next) => one_section(title, body) + grouped(rest, Some(next), line),
            None => grouped(rest, title, body + line),
        }
    }
}

/// The sections of a text. An empty text is one section without a title.
pub open spec fn sections(text: Seq<char>) -> Seq<SectionView> {
    let found = grouped(lines(text), None, Seq::empty());
    if found.len() == 0 {
        seq![(None, text)]
    } else {
        found
    }
}

/// The texts of sections, one after the other.
pub open spec fn joined(sections: Seq<SectionView>) -> Seq<char>
    decreases sections.len(),
{
    if sections.len() == 0 {
        Seq::empty()
    } else {
        joined(sections.drop_last()) + sections.last().1
    }
}

/// What a list of sections holds.
pub open spec fn section_views(v: Seq<(Option<String>, &str)>) -> Seq<SectionView> {
    Seq::new(v.len(), |i: int| (text::opt_view(v[i].0), v[i].1@))
}

pub proof fn lemma_line_len(text: Seq<char>)
    ensures
        line_len(text) <= text.len(),
        text.len() > 0 ==> line_len(text) > 0,
    decreases text.len(),
{
    if text.len() > 0 && text[0] != '\n' {
        lemma_line_len(text.drop_first());
    }
}

// ---------------------------------------------------------------------------
// Laws
// ---------------------------------------------------------------------------

proof fn lemma_joined_concat(a: Seq<SectionView>, b: Seq<SectionView>)
    ensures
        joined(a + b) == joined(a) + joined(b),
    decreases b.len(),
{
    if b.len() == 0 {
        assert(a + b =~= a);
        assert(joined(a) + joined(b) =~= joined(a));
    } else {
        assert((a + b).drop_last() =~= a + b.drop_last());
        lemma_joined_concat(a, b.drop_last());
        assert(joined(a + b) =~= joined(a) + joined(b));
    }
}

proof fn lemma_joined_one(title: Option<Seq<char>>, body: Seq<char>)
    ensures
        joined(one_section(title, body)) == body,
{
    if body.len() > 0 {
        let s = seq![(title, body)];
        assert(s.drop_last() =~= Seq::<SectionView>::empty());
        assert(joined(s.drop_last()) =~= Seq::<char>::empty());
        assert(joined(s) =~= body);
    } else {
        assert(joined(one_section(title, body)) =~= body);
    }
}

proof fn lemma_grouped_joined(text: Seq<char>, title: Option<Seq<char>>, body: Seq<char>)
    ensures
        joined(grouped(lines(text), title, body)) == body + text,
    decreases text.len(),
{
    lemma_joined_one(title, body);
    if text.len() == 0 {
        assert(body + text =~= body);
    } else {
        lemma_line_len(text);
        let n = line_len(text) as int;
        let line = text.take(n);
        let rest = text.skip(n);
        assert(lines(text)[0] == line);
        assert(lines(text).drop_first() =~= lines(rest));
        assert(line + rest =~= text);
        match heading_title(line) {
            Some(next) => {
                lemma_grouped_joined(rest, Some(next), line);
                lemma_joined_concat(
                    one_section(title, body),
                    grouped(lines(rest), Some(next), line),
                );
            },
            None => {
                lemma_grouped_joined(rest, title, body + line);
                assert((body + line) + rest =~= body + text);
            },
        }
    }
}

/// The sections of a text, put together again, are the text: nothing is lost, repeated
/// or moved.
pub proof fn law_sections_cover_text(text: Seq<char>)
    ensures
        joined(sections(text)) == text,
{
    lemma_grouped_joined(text, None, Seq::empty());
    let found = grouped(lines(text), None, Seq::empty());
    if found.len() == 0 {
        assert(text.len() == 0);
        let s: Seq<SectionView> = seq![(None, text)];
        assert(s.drop_last() =~= Seq::<SectionView>::empty());
        assert(joined(s) =~= text);
    } else {
        assert(Seq::<char>::empty() + text =~= text);
    }
}

/// A section with a title begins with the heading line that gives the title, and a
/// section without one has no heading line in front.
pub open spec fn titled_by_first_line(section: SectionView) -> bool {
    heading_title(section.1.take(line_len(section.1) as int)) == section.0
}

proof fn lemma_grouped_titles(text: Seq<char>, title: Option<Seq<char>>, body: Seq<char>)
    requires
        body.len() > 0 ==> titled_by_first_line((title, body)),
        body.len() > 0 ==> body.last() == '\n' || text.len() == 0,
        body.len() == 0 ==> title is None,
    ensures
        forall|i: int|
            0 <= i < grouped(lines(text), title, body).len() ==> titled_by_first_line(
                #[trigger] grouped(lines(text), title, body)[i],
            ),
        forall|i: int|
            1 <= i < grouped(lines(text), title, body).len() ==> (
            #[trigger] grouped(lines(text), title, body)[i]).0 is Some,
    decreases text.len(),
{
    if text.len() > 0 {
        lemma_line_len(text);
        let n = line_len(text) as int;
        let line = text.take(n);
        let rest = text.skip(n);
        assert(lines(text)[0] == line);
        assert(lines(text).drop_first() =~= lines(rest));
        lemma_first_line(text);
        assert(line.take(line_len(line) as int) =~= line);
        match heading_title(line) {
            Some(next) => {
                lemma_grouped_titles(rest, Some(next), line);
                lemma_grouped_head(rest, Some(next), line);
                let tail = grouped(lines(rest), Some(next), line);
                let whole = one_section(title, body) + tail;
                assert forall|i: int| 0 <= i < whole.len() implies titled_by_first_line(
                    #[trigger] whole[i],
                ) by {
                    if i >= one_section(title, body).len() {
                        assert(whole[i] == tail[i - one_section(title, body).len()]);
                    }
                }
                assert forall|i: int| 1 <= i < whole.len() implies (
                #[trigger] whole[i]).0 is Some by {
                    let j = i - one_section(title, body).len();
                    assert(whole[i] == tail[j]);
                }
            },
            None => {
                if body.len() > 0 {
                    lemma_first_line_extends(body, line);
                } else {
                    assert(body + line =~= line);
                }
                lemma_grouped_titles(rest, title, body + line);
            },
        }
    }
}

/// A section begun with a heading comes first and keeps its title.
proof fn lemma_grouped_head(text: Seq<char>, title: Option<Seq<char>>, body: Seq<char>)
    requires
        body.len() > 0,
    ensures
        grouped(lines(text), title, body).len() > 0,
        grouped(lines(text), title, body)[0].0 == title,
    decreases text.len(),
{
    if text.len() > 0 {
        lemma_line_len(text);
        let n = line_len(text) as int;
        let line = text.take(n);
        let rest = text.skip(n);
        assert(lines(text)[0] == line);
        assert(lines(text).drop_first() =~= lines(rest));
        if heading_title(line) is None {
            lemma_grouped_head(rest, title, body + line);
        }
    }
}

/// The first line of a text is a whole line: it ends the text or ends in a line break.
proof fn lemma_first_line(text: Seq<char>)
    ensures
        ({
            let line = text.take(line_len(text) as int);
            &&& line_len(line) == line.len()
            &&& line_len(text) < text.len() ==> line.last() == '\n'
        }),
    decreases text.len(),
{
    lemma_line_len(text);
    let n = line_len(text) as int;
    let line = text.take(n);
    if text.len() > 0 && text[0] != '\n' {
        lemma_line_len(text.drop_first());
        lemma_first_line(text.drop_first());
        assert(line.drop_first() =~= text.drop_first().take(n - 1));
        if n < text.len() {
            assert(text.drop_first().take(n - 1).len() > 0) by {
                lemma_line_len(text.drop_first());
            }
            assert(line.last() == line.drop_first().last());
        }
    }
}

proof fn lemma_first_line_extends(body: Seq<char>, more: Seq<char>)
    requires
        body.len() > 0,
        body.last() == '\n',
    ensures
        line_len(body + more) == line_len(body),
        (body + more).take(line_len(body) as int) == body.take(line_len(body) as int),
    decreases body.len(),
{
    lemma_line_len(body);
    if body[0] != '\n' {
        assert(body.len() > 1);
        assert((body + more).drop_first() =~= body.drop_first() + more);
        lemma_first_line_extends(body.drop_first(), more);
    }
    assert((body + more).take(line_len(body) as int) =~= body.take(line_len(body) as int));
}

/// Every section is titled by its own first line, and only the first section of a text
/// can be without a title.
pub proof fn law_section_titles(text: Seq<char>)
    ensures
        forall|i: int|
            0 <= i < sections(text).len() ==> titled_by_first_line(#[trigger] sections(text)[i]),
        forall|i: int|
            1 <= i < sections(text).len() ==> (#[trigger] sections(text)[i]).0 is Some,
{
    lemma_grouped_titles(text, None, Seq::empty());
    let found = grouped(lines(text), None, Seq::empty());
    if found.len() == 0 {
        lemma_grouped_joined(text, None, Seq::empty());
        assert(text.len() == 0);
        assert(text.take(0) =~= text);
        assert(white::trim_start(text) =~= text);
    }
}

/// White space, one to six `#`, a space and more make a heading with the rest, trimmed, as
/// its title. With more than six `#` there is none.
pub proof fn law_heading_line(front: Seq<char>, hashes: nat, rest: Seq<char>)
    requires
        white::blank(front),
        1 <= hashes,
    ensures
        heading_title(front + Seq::new(hashes, |i: int| '#') + seq![' '] + rest) == if hashes <= 6 {
            Some(white::trim(rest))
        } else {
            None
        },
{
    let marks = Seq::new(hashes, |i: int| '#');
    let line = front + marks + seq![' '] + rest;
    let n = front.len() as int;
    assert forall|i: int| 0 <= i < n implies (white::white())(#[trigger] line[i]) by {
        assert(line[i] == front[i]);
    }
    assert(line[n] == marks[0]);
    assert(!white::white_space('#'));
    white::lemma_leading(line, white::white(), n);
    let t = white::trim_start(line);
    assert(t =~= marks + seq![' '] + rest);
    assert forall|i: int| 0 <= i < hashes implies (hash_mark())(#[trigger] t[i]) by {
        assert(t[i] == marks[i]);
    }
    assert(t[hashes as int] == ' ');
    white::lemma_leading(t, hash_mark(), hashes as int);
    let after = t.skip(hashes as int);
    assert(after =~= seq![' '] + rest);
    assert(white::white_space(after[0]));
    assert(after.drop_first() =~= rest);
    assert(white::trim_start(after) =~= white::trim_start(rest)) by {
        lemma_leading_all(rest, white::white());
        assert(white::leading(after, white::white()) == 1 + white::leading(rest, white::white()));
    }
}

/// A line that is a heading begins so: white space, one to six `#`, a space.
pub proof fn law_heading_shape(line: Seq<char>) -> (shape: (int, int))
    requires
        heading_title(line) is Some,
    ensures
        ({
            let (n, h) = shape;
            &&& 0 <= n
            &&& 1 <= h <= 6
            &&& n + h < line.len()
            &&& white::blank(line.take(n))
            &&& forall|i: int| n <= i < n + h ==> #[trigger] line[i] == '#'
            &&& line[n + h] == ' '
        }),
{
    let n = white::leading(line, white::white()) as int;
    lemma_leading_all(line, white::white());
    let t = white::trim_start(line);
    let h = white::leading(t, hash_mark()) as int;
    lemma_leading_all(t, hash_mark());
    assert forall|i: int| 0 <= i < line.take(n).len() implies white::white_space(
        #[trigger] line.take(n)[i],
    ) by {
        assert((white::white())(line[i]));
    }
    assert forall|i: int| n <= i < n + h implies #[trigger] line[i] == '#' by {
        assert(t[i - n] == line[i]);
        assert((hash_mark())(t[i - n]));
    }
    assert(t[h] == line[n + h]);
    (n, h)
}

proof fn lemma_leading_all(s: Seq<char>, p: spec_fn(char) -> bool)
    ensures
        white::leading(s, p) <= s.len(),
        forall|i: int| 0 <= i < white::leading(s, p) ==> p(#[trigger] s[i]),
    decreases s.len(),
{
    if s.len() > 0 && p(s[0]) {
        lemma_leading_all(s.drop_first(), p);
        assert forall|i: int| 0 <= i < white::leading(s, p) implies p(#[trigger] s[i]) by {
            if i > 0 {
                assert(s[i] == s.drop_first()[i - 1]);
            }
        }
    }
}

/// Whether a text is one whole line: it has no line break but one at its end, if any.
pub open spec fn is_line(line: Seq<char>) -> bool {
    line.len() > 0 && forall|i: int| 0 <= i < line.len() - 1 ==> #[trigger] line[i] != '\n'
}

/// Whether a line may begin behind this text: it is empty or ends in a line break.
pub open spec fn ends_line(text: Seq<char>) -> bool {
    text.len() == 0 || text.last() == '\n'
}

proof fn lemma_line_len_of(line: Seq<char>, after: Seq<char>)
    requires
        is_line(line),
        line.last() == '\n' || after.len() == 0,
    ensures
        line_len(line + after) == line.len(),
    decreases line.len(),
{
    let s = line + after;
    if line.len() == 1 {
        if s[0] != '\n' {
            assert(s.drop_first() =~= Seq::<char>::empty());
            assert(line_len(s.drop_first()) == 0);
        }
    } else {
        assert(line[0] != '\n');
        let shorter = line.drop_first();
        assert(s.drop_first() =~= shorter + after);
        assert forall|i: int| 0 <= i < shorter.len() - 1 implies #[trigger] shorter[i] != '\n' by {
            assert(shorter[i] == line[i + 1]);
        }
        lemma_line_len_of(shorter, after);
    }
}

proof fn lemma_lines_of(line: Seq<char>, after: Seq<char>)
    requires
        is_line(line),
        line.last() == '\n' || after.len() == 0,
    ensures
        lines(line + after) == seq![line] + lines(after),
{
    lemma_line_len_of(line, after);
    let s = line + after;
    assert(s.take(line.len() as int) =~= line);
    assert(s.skip(line.len() as int) =~= after);
}

proof fn lemma_lines_concat(a: Seq<char>, b: Seq<char>)
    requires
        ends_line(a),
    ensures
        lines(a + b) == lines(a) + lines(b),
    decreases a.len(),
{
    if a.len() == 0 {
        assert(a + b =~= b);
        assert(lines(a) + lines(b) =~= lines(b));
    } else {
        lemma_line_len(a);
        lemma_first_line(a);
        let n = line_len(a) as int;
        lemma_first_line_extends(a, b);
        let rest = a.skip(n);
        assert((a + b).skip(n) =~= rest + b);
        if rest.len() > 0 {
            assert(rest.last() == a.last());
        }
        lemma_lines_concat(rest, b);
        assert(lines(a + b) =~= lines(a) + lines(b));
    }
}

proof fn lemma_grouped_split(
    first: Seq<Seq<char>>,
    line: Seq<char>,
    rest: Seq<Seq<char>>,
    title: Option<Seq<char>>,
    body: Seq<char>,
)
    requires
        heading_title(line) is Some,
    ensures
        grouped(first + seq![line] + rest, title, body) == grouped(first, title, body) + grouped(
            rest,
            heading_title(line),
            line,
        ),
    decreases first.len(),
{
    let all = first + seq![line] + rest;
    if first.len() == 0 {
        assert(all[0] == line);
        assert(all.drop_first() =~= rest);
    } else {
        assert(all[0] == first[0]);
        assert(all.drop_first() =~= first.drop_first() + seq![line] + rest);
        match heading_title(first[0]) {
            Some(next) => {
                lemma_grouped_split(first.drop_first(), line, rest, Some(next), first[0]);
                assert(grouped(all, title, body) =~= grouped(first, title, body) + grouped(
                    rest,
                    heading_title(line),
                    line,
                ));
            },
            None => {
                lemma_grouped_split(first.drop_first(), line, rest, title, body + first[0]);
            },
        }
    }
}

/// Every heading line of a text begins a section, which has its title.
pub proof fn law_heading_begins_section(
    before: Seq<char>,
    line: Seq<char>,
    after: Seq<char>,
) -> (j: int)
    requires
        ends_line(before),
        is_line(line),
        line.last() == '\n' || after.len() == 0,
        heading_title(line) is Some,
    ensures
        0 <= j < sections(before + line + after).len(),
        joined(sections(before + line + after).take(j)) == before,
        sections(before + line + after)[j].0 == heading_title(line),
{
    let text = before + line + after;
    assert(text =~= before + (line + after));
    lemma_lines_concat(before, line + after);
    lemma_lines_of(line, after);
    let first = lines(before);
    assert(lines(text) =~= first + seq![line] + lines(after));
    lemma_grouped_split(first, line, lines(after), None, Seq::empty());
    let head = grouped(first, None, Seq::empty());
    lemma_grouped_joined(before, None, Seq::empty());
    assert(Seq::<char>::empty() + before =~= before);
    lemma_grouped_head(after, heading_title(line), line);
    let j = head.len() as int;
    assert(sections(text).take(j) =~= head);
    j
}

/// The text of the first sections grows with them.
pub proof fn lemma_joined_take(sections: Seq<SectionView>, i: int, j: int)
    requires
        0 <= i <= j <= sections.len(),
    ensures
        joined(sections.take(i)).len() <= joined(sections.take(j)).len(),
        j < sections.len() ==> joined(sections.take(j + 1)) == joined(sections.take(j))
            + sections[j].1,
    decreases j,
{
    if j < sections.len() {
        assert(sections.take(j + 1).drop_last() =~= sections.take(j));
    }
    if i < j {
        lemma_joined_take(sections, i, j - 1);
        assert(sections.take(j).drop_last() =~= sections.take(j - 1));
    }
}

/// A section has no heading line but the one that it begins with: no line behind its first
/// is one.
pub proof fn law_section_has_one_heading(
    text: Seq<char>,
    j: int,
    first: Seq<char>,
    line: Seq<char>,
    rest: Seq<char>,
)
    requires
        0 <= j < sections(text).len(),
        sections(text)[j].1 == first + line + rest,
        first.len() > 0,
        ends_line(first),
        is_line(line),
        line.last() == '\n' || j + 1 == sections(text).len() && rest.len() == 0,
    ensures
        heading_title(line) is None,
{
    let secs = sections(text);
    law_sections_cover_text(text);
    lemma_joined_take(secs, 0, j);
    let start = joined(secs.take(j));
    let before = start + first;
    let upto = joined(secs.take(j + 1));
    let after = text.skip((before.len() + line.len()) as int);
    assert(secs.take(secs.len() as int) =~= secs);
    lemma_joined_prefix_of(secs, j + 1);
    assert(upto == start + (first + line + rest));
    assert(text.take(upto.len() as int) == upto);
    assert(text =~= before + line + after) by {
        assert(text.take((before.len() + line.len()) as int) =~= before + line) by {
            assert(text.take((before.len() + line.len()) as int) =~= upto.take(
                (before.len() + line.len()) as int,
            ));
            assert(upto.take((before.len() + line.len()) as int) =~= before + line);
        }
    }
    if heading_title(line) is Some {
        if line.last() != '\n' {
            assert(upto =~= text);
        }
        assert(before.last() == first.last());
        let i = law_heading_begins_section(before, line, after);
        if i <= j {
            lemma_joined_take(secs, i, j);
        } else {
            lemma_joined_take(secs, j + 1, i);
        }
    }
}

/// The text of all sections begins with that of the first ones.
pub proof fn lemma_joined_prefix_of(sections: Seq<SectionView>, i: int)
    requires
        0 <= i <= sections.len(),
    ensures
        joined(sections.take(i)).len() <= joined(sections).len(),
        joined(sections).take(joined(sections.take(i)).len() as int) == joined(sections.take(i)),
    decreases sections.len(),
{
    let head = joined(sections.take(i));
    if i == sections.len() {
        assert(sections.take(i) =~= sections);
        assert(head.take(head.len() as int) =~= head);
    } else {
        let shorter = sections.drop_last();
        assert(shorter.take(i) =~= sections.take(i));
        lemma_joined_prefix_of(shorter, i);
        assert(joined(sections).take(head.len() as int) =~= joined(shorter).take(
            head.len() as int,
        ));
    }
}

// ---------------------------------------------------------------------------
// Code
// ---------------------------------------------------------------------------

/// The title of a heading line, `None` for any other line.
pub fn heading_of(line: &str) -> (r: Option<String>)
    ensures
        text::opt_view(r) == heading_title(line@),
{
    let chars: Vec<char> = char_vec(line);
    let n: usize = chars.len();
    let mut start: usize = 0;
    while start < n && is_white_space(chars[start])
        invariant
            start <= n,
            n == chars@.len(),
            forall|i: int| 0 <= i < start ==> white::white_space(#[trigger] chars@[i]),
        decreases n - start,
    {
        start += 1;
    }
    proof {
        white::lemma_leading(chars@, white::white(), start as int);
    }
    let ghost t = white::trim_start(line@);
    assert(t =~= chars@.skip(start as int));
    let mut h: usize = start;
    while h < n && chars[h] == '#'
        invariant
            start <= h <= n,
            n == chars@.len(),
            t == chars@.skip(start as int),
            forall|i: int| 0 <= i < h - start ==> (#[trigger] t[i]) == '#',
        decreases n - h,
    {
        h += 1;
    }
    proof {
        white::lemma_leading(t, hash_mark(), h - start);
    }
    if h == start || h - start > 6 || h >= n || chars[h] != ' ' {
        return None;
    }
    let ghost after = t.skip(h - start);
    assert(after =~= chars@.skip(h as int));
    let mut a: usize = h;
    while a < n && is_white_space(chars[a])
        invariant
            h <= a <= n,
            n == chars@.len(),
            after == chars@.skip(h as int),
            forall|i: int| 0 <= i < a - h ==> white::white_space(#[trigger] after[i]),
        decreases n - a,
    {
        a += 1;
    }
    proof {
        white::lemma_leading(after, white::white(), a - h);
    }
    let ghost inner = white::trim_start(after);
    assert(inner =~= chars@.skip(a as int));
    let mut b: usize = n;
    while b > a && is_white_space(chars[b - 1])
        invariant
            a <= b <= n,
            n == chars@.len(),
            inner == chars@.skip(a as int),
            forall|i: int| b - a <= i < inner.len() ==> white::white_space(#[trigger] inner[i]),
        decreases b,
    {
        b -= 1;
    }
    proof {
        white::lemma_trim_end(inner, b - a);
        assert(inner.take(b - a) =~= line@.subrange(a as int, b as int));
    }
    Some(line.substring_char(a, b).to_owned())
}

/// Reads the first line of what `chars` has left and returns its length in bytes.
fn read_line<'a>(chars: &mut Chars<'a>, Ghost(rest): Ghost<Seq<char>>) -> (width: usize)
    requires
        rest == vstd::std_specs::iter::IteratorSpec::remaining(&*old(chars)),
        encode_utf8(rest).len() <= usize::MAX,
    ensures
        ({
            let n = line_len(rest) as int;
            &&& width == encode_utf8(rest.take(n)).len()
            &&& vstd::std_specs::iter::IteratorSpec::remaining(&*final(chars)) == rest.skip(n)
        }),
{
    let ghost mut k: int = 0;
    let mut width: usize = 0;
    proof {
        assert(rest.skip(0) =~= rest);
        assert(rest.take(0) =~= Seq::<char>::empty());
        assert(encode_utf8(rest.take(0)) =~= Seq::<u8>::empty());
    }
    loop
        invariant_except_break
            line_len(rest) == k + line_len(rest.skip(k)),
        invariant
            0 <= k <= rest.len(),
            encode_utf8(rest).len() <= usize::MAX,
            vstd::std_specs::iter::IteratorSpec::remaining(&*chars) == rest.skip(k),
            width == encode_utf8(rest.take(k)).len(),
        ensures
            k == line_len(rest),
            vstd::std_specs::iter::IteratorSpec::remaining(&*chars) == rest.skip(k),
            width == encode_utf8(rest.take(k)).len(),
        decreases rest.len() - k,
    {
        match chars.next() {
            Some(c) => {
                proof {
                    assert(c == rest[k]);
                    assert(rest.skip(k).drop_first() =~= rest.skip(k + 1));
                    assert(rest.take(k + 1) =~= rest.take(k).push(c));
                    text::lemma_encode_push(rest.take(k), c);
                    text::lemma_encode_cut(rest, k + 1);
                }
                width += char_width(c);
                proof {
                    k = k + 1;
                }
                if c == '\n' {
                    break;
                }
            },
            None => {
                break;
            },
        }
    }
    width
}

/// Splits a text into sections at its heading lines.
pub fn split_on_headings(text: &str) -> (r: Vec<(Option<String>, &str)>)
    ensures
        section_views(r@) == sections(text@),
{
    let total: usize = byte_len(text);
    let mut found: Vec<(Option<String>, &str)> = Vec::new();
    let mut chars = text.chars();
    let mut heading: Option<String> = None;
    let mut pos: usize = 0;
    let mut last_split: usize = 0;
    let ghost all = grouped(lines(text@), None, Seq::empty());
    // `pos` and `last_split` are the places after the first `k` and `m` characters.
    let ghost mut k: int = 0;
    let ghost mut m: int = 0;
    proof {
        assert(text@.skip(0) =~= text@);
        assert(text@.take(0) =~= Seq::<char>::empty());
        assert(encode_utf8(text@.take(0)) =~= Seq::<u8>::empty());
        assert(text@.subrange(0, 0) =~= Seq::<char>::empty());
        assert(section_views(found@) =~= Seq::<SectionView>::empty());
        assert(section_views(found@) + all =~= all);
    }
    while pos < total
        invariant
            0 <= m <= k <= text@.len(),
            total == encode_utf8(text@).len(),
            pos == encode_utf8(text@.take(k)).len(),
            last_split == encode_utf8(text@.take(m)).len(),
            vstd::std_specs::iter::IteratorSpec::remaining(&chars) == text@.skip(k),
            all == section_views(found@) + grouped(
                lines(text@.skip(k)),
                text::opt_view(heading),
                text@.subrange(m, k),
            ),
            pos <= total,
        decreases total - pos,
    {
        proof {
            text::lemma_encode_cut(text@, k);
            lemma_line_len(text@.skip(k));
        }
        let ghost n = line_len(text@.skip(k)) as int;
        let width: usize = read_line(&mut chars, Ghost(text@.skip(k)));
        proof {
            assert(k < text@.len()) by {
                if k == text@.len() {
                    assert(text@.take(k) =~= text@);
                }
            }
            assert(text@.skip(k).take(n) =~= text@.subrange(k, k + n));
            assert(text@.skip(k).skip(n) =~= text@.skip(k + n));
            text::lemma_encode_range(text@, k, k + n);
            text::lemma_encode_range(text@, m, k);
            assert(lines(text@.skip(k))[0] == text@.subrange(k, k + n));
            assert(lines(text@.skip(k)).drop_first() =~= lines(text@.skip(k + n)));
        }
        let line: &str = slice(text, pos, pos + width);
        match heading_of(line) {
            Some(title) => {
                let ghost before = found@;
                let ghost tail = grouped(
                    lines(text@.skip(k + n)),
                    Some(title@),
                    text@.subrange(k, k + n),
                );
                let ghost old_title = text::opt_view(heading);
                if pos > last_split {
                    let body: &str = slice(text, last_split, pos);
                    found.push((heading, body));
                }
                proof {
                    assert(section_views(found@) =~= section_views(before) + one_section(
                        old_title,
                        text@.subrange(m, k),
                    ));
                    assert((section_views(before) + one_section(
                        old_title,
                        text@.subrange(m, k),
                    )) + tail =~= section_views(before) + (one_section(
                        old_title,
                        text@.subrange(m, k),
                    ) + tail));
                    m = k;
                }
                heading = Some(title);
                last_split = pos;
            },
            None => {
                proof {
                    assert(text@.subrange(m, k) + text@.subrange(k, k + n) =~= text@.subrange(
                        m,
                        k + n,
                    ));
                }
            },
        }
        pos += width;
        proof {
            k = k + n;
        }
    }
    proof {
        text::lemma_encode_cut(text@, k);
        text::lemma_encode_len(text@.skip(k));
        assert(text@.skip(k).len() == 0);
        assert(lines(text@.skip(k)) =~= Seq::<Seq<char>>::empty());
        text::lemma_encode_range(text@, m, k);
    }
    let ghost before = found@;
    let ghost old_title = text::opt_view(heading);
    if last_split < total {
        let body: &str = slice(text, last_split, total);
        found.push((heading, body));
    }
    proof {
        assert(section_views(found@) =~= section_views(before) + one_section(
            old_title,
            text@.subrange(m, k),
        ));
        assert(section_views(found@) == all);
    }
    if found.len() == 0 {
        found.push((None, text));
        proof {
            assert(section_views(found@) =~= seq![(None::<Seq<char>>, text@)]);
        }
    }
    found
}

} // verus!
