//! How documents lie in a text.
use vstd::prelude::*;

use crate::text::{contents, documents, is_space, lines, nonblank, trim_end, trim_start, trimmed};

verus! {

/// The characters of `text` from `from` to `to` are white space.
pub open spec fn blank(text: Seq<char>, from: int, to: int) -> bool {
    forall|i: int| from <= i < to ==> is_space(#[trigger] text[i])
}

/// Document `doc` is the part of `text` that starts at `at`: it holds something, has no white
/// space at its ends and lies on one line.
pub open spec fn stands_at(text: Seq<char>, doc: Seq<char>, at: int) -> bool {
    &&& doc.len() > 0
    &&& 0 <= at <= text.len() - doc.len()
    &&& forall|i: int| 0 <= i < doc.len() ==> #[trigger] doc[i] == text[at + i]
    &&& !is_space(doc[0])
    &&& !is_space(doc.last())
    &&& forall|i: int| 0 <= i < doc.len() ==> #[trigger] doc[i] != '\n'
}

/// Whether there is a line feed in `text` from `from` to `to`.
pub open spec fn breaks(text: Seq<char>, from: int, to: int) -> bool {
    exists|i: int| from <= i < to && #[trigger] text[i] == '\n'
}

/// The documents `docs` stand in `text`, one behind the other, at the places `at`: there is
/// nothing but white space around them, and a line feed between any two of them.
pub open spec fn laid_out(text: Seq<char>, docs: Seq<Seq<char>>, at: Seq<int>) -> bool {
    &&& at.len() == docs.len()
    &&& forall|i: int| 0 <= i < docs.len() ==> stands_at(text, #[trigger] docs[i], at[i])
    &&& docs.len() == 0 ==> blank(text, 0, text.len() as int)
    &&& docs.len() > 0 ==> blank(text, 0, at[0]) && blank(
        text,
        at.last() + docs.last().len(),
        text.len() as int,
    )
    &&& forall|i: int|
        0 < i < docs.len() ==> at[i - 1] + docs[i - 1].len() <= #[trigger] at[i] && blank(
            text,
            at[i - 1] + docs[i - 1].len(),
            at[i],
        ) && breaks(text, at[i - 1] + docs[i - 1].len(), at[i])
}

/// What white space at the start of a line leaves.
proof fn lemma_trim_start(line: Seq<char>) -> (a: int)
    ensures
        0 <= a <= line.len(),
        trim_start(line) == line.skip(a),
        blank(line, 0, a),
        a < line.len() ==> !is_space(line[a]),
    decreases line.len(),
{
    if line.len() > 0 && is_space(line[0]) {
        let a = lemma_trim_start(line.skip(1)) + 1;
        assert(line.skip(1).skip(a - 1) =~= line.skip(a));
        assert forall|i: int| 0 <= i < a implies is_space(#[trigger] line[i]) by {
            if i > 0 {
                assert(line.skip(1)[i - 1] == line[i]);
            }
        }
        if a < line.len() {
            assert(line.skip(1)[a - 1] == line[a]);
        }
        a
    } else {
        assert(line.skip(0) =~= line);
        0
    }
}

/// What white space at the end of a line leaves.
proof fn lemma_trim_end(line: Seq<char>) -> (b: int)
    ensures
        0 <= b <= line.len(),
        trim_end(line) == line.take(b),
        blank(line, b, line.len() as int),
        b > 0 ==> !is_space(line[b - 1]),
    decreases line.len(),
{
    if line.len() > 0 && is_space(line.last()) {
        let short = line.drop_last();
        let b = lemma_trim_end(short);
        assert(short.take(b) =~= line.take(b));
        assert forall|i: int| b <= i < line.len() implies is_space(#[trigger] line[i]) by {
            if i < short.len() {
                assert(short[i] == line[i]);
            }
        }
        if b > 0 {
            assert(short[b - 1] == line[b - 1]);
        }
        b
    } else {
        assert(line.take(line.len() as int) =~= line);
        line.len() as int
    }
}

/// A line that ends the text: it adds a document, unless it is blank.
proof fn lemma_last_line(
    text: Seq<char>,
    start: int,
    docs: Seq<Seq<char>>,
    at: Seq<int>,
) -> (more: Seq<int>)
    requires
        0 <= start <= text.len(),
        start > 0 ==> text[start - 1] == '\n',
        forall|i: int| start <= i < text.len() ==> #[trigger] text[i] != '\n',
        laid_out(text.take(start), docs, at),
        start == 0 ==> docs.len() == 0,
    ensures
        laid_out(
            text,
            if trimmed(text.skip(start)).len() == 0 {
                docs
            } else {
                docs.push(trimmed(text.skip(start)))
            },
            more,
        ),
{
    let (line, before) = (text.skip(start), text.take(start));
    let a = lemma_trim_start(line);
    let rest = line.skip(a);
    let b = lemma_trim_end(rest);
    let doc = rest.take(b);
    assert(trimmed(line) == doc);
    let n = text.len() as int;
    assert forall|i: int| 0 <= i < start implies #[trigger] before[i] == text[i] by {}
    assert forall|i: int| start <= i < start + a implies is_space(#[trigger] text[i]) by {
        assert(line[i - start] == text[i]);
    }
    assert forall|i: int| start + a + b <= i < n implies is_space(#[trigger] text[i]) by {
        assert(rest[i - start - a] == text[i]);
    }
    assert forall|i: int| 0 <= i < docs.len() implies stands_at(
        text,
        #[trigger] docs[i],
        at[i],
    ) by {
        assert(stands_at(before, docs[i], at[i]));
        assert forall|j: int| 0 <= j < docs[i].len() implies #[trigger] docs[i][j] == text[at[i]
            + j] by {
            assert(docs[i][j] == before[at[i] + j]);
        }
    }
    let end = if docs.len() == 0 {
        0
    } else {
        at.last() + docs.last().len()
    };
    if docs.len() > 0 {
        assert(stands_at(before, docs[docs.len() - 1], at[docs.len() - 1]));
        assert(blank(before, end, start));
        assert forall|i: int| 0 <= i < at[0] implies is_space(#[trigger] text[i]) by {
            assert(stands_at(before, docs[0], at[0]));
            assert(is_space(before[i]));
        }
    }
    assert forall|i: int| end <= i < start + a implies is_space(#[trigger] text[i]) by {
        if i < start {
            assert(is_space(before[i]));
        }
    }
    assert forall|i: int| 0 < i < docs.len() implies at[i - 1] + docs[i - 1].len()
        <= #[trigger] at[i] && blank(text, at[i - 1] + docs[i - 1].len(), at[i]) && breaks(
        text,
        at[i - 1] + docs[i - 1].len(),
        at[i],
    ) by {
        let from = at[i - 1] + docs[i - 1].len();
        assert(stands_at(before, docs[i], at[i]));
        assert(stands_at(before, docs[i - 1], at[i - 1]));
        assert forall|j: int| from <= j < at[i] implies is_space(#[trigger] text[j]) by {
            assert(is_space(before[j]));
        }
        let j = choose|j: int| from <= j < at[i] && #[trigger] before[j] == '\n';
        assert(text[j] == '\n');
    }
    if b == 0 {
        at
    } else {
        let more = at.push(start + a);
        let all = docs.push(doc);
        assert(stands_at(text, doc, start + a)) by {
            assert forall|i: int| 0 <= i < doc.len() implies #[trigger] doc[i] == text[start + a
                + i] by {
                assert(doc[i] == rest[i]);
            }
            assert(doc[0] == line[a]);
            assert(doc.last() == rest[b - 1]);
        }
        if docs.len() > 0 {
            assert(is_space('\n'));
            if end == start {
                assert(docs.last().last() == docs.last()[docs.last().len() - 1]);
                assert(docs.last()[docs.last().len() - 1] == before[start - 1]);
            }
            assert(text[start - 1] == '\n');
            assert(breaks(text, end, start + a));
        }
        assert forall|i: int| 0 < i < all.len() implies more[i - 1] + all[i - 1].len()
            <= #[trigger] more[i] && blank(text, more[i - 1] + all[i - 1].len(), more[i])
            && breaks(text, more[i - 1] + all[i - 1].len(), more[i]) by {
            if i < docs.len() {
                assert(more[i] == at[i] && more[i - 1] == at[i - 1]);
            }
        }
        assert forall|i: int| 0 <= i < all.len() implies stands_at(
            text,
            #[trigger] all[i],
            more[i],
        ) by {
            if i < docs.len() {
                assert(all[i] == docs[i]);
            }
        }
        more
    }
}

/// Where the last line starts, and the documents of those before it.
proof fn lemma_lines_lie(text: Seq<char>) -> (r: (int, Seq<int>))
    ensures
        lines(text).len() > 0,
        0 <= r.0 <= text.len(),
        lines(text).last() == text.skip(r.0),
        r.0 > 0 ==> text[r.0 - 1] == '\n',
        r.0 == 0 ==> nonblank(lines(text).drop_last()).len() == 0,
        forall|i: int| r.0 <= i < text.len() ==> #[trigger] text[i] != '\n',
        laid_out(text.take(r.0), nonblank(lines(text).drop_last()), r.1),
    decreases text.len(),
{
    let all = lines(text);
    if text.len() == 0 {
        assert(all.last() =~= text.skip(0));
        assert(all.drop_last() =~= Seq::empty());
        (0, Seq::empty())
    } else {
        let short = text.drop_last();
        let before = lines(short);
        let (start, at) = lemma_lines_lie(short);
        if text.last() == '\n' {
            let n = text.len() as int;
            assert(all.drop_last() =~= before);
            assert(all.last() =~= text.skip(n));
            let more = lemma_last_line(short, start, nonblank(before.drop_last()), at);
            assert(before.last() == short.skip(start));
            assert(laid_out(short, nonblank(before), more));
            assert(text.take(n) =~= text);
            lemma_one_more_feed(short, nonblank(before), more);
            assert(short.push('\n') =~= text);
            (n, more)
        } else {
            assert(all.drop_last() =~= before.drop_last());
            assert(all.last() =~= text.skip(start));
            assert(text.take(start) =~= short.take(start));
            if start > 0 {
                assert(text[start - 1] == short[start - 1]);
            }
            assert forall|i: int| start <= i < text.len() implies #[trigger] text[i] != '\n' by {
                if i < short.len() {
                    assert(short[i] == text[i]);
                }
            }
            (start, at)
        }
    }
}

/// A line feed at the end moves no document.
proof fn lemma_one_more_feed(text: Seq<char>, docs: Seq<Seq<char>>, at: Seq<int>)
    requires
        laid_out(text, docs, at),
    ensures
        laid_out(text.push('\n'), docs, at),
{
    let longer = text.push('\n');
    assert forall|i: int| 0 <= i < text.len() implies #[trigger] longer[i] == text[i] by {}
    assert forall|i: int| 0 <= i < docs.len() implies stands_at(
        longer,
        #[trigger] docs[i],
        at[i],
    ) by {
        assert(stands_at(text, docs[i], at[i]));
        assert forall|j: int| 0 <= j < docs[i].len() implies #[trigger] docs[i][j] == longer[at[i]
            + j] by {
            assert(docs[i][j] == text[at[i] + j]);
        }
    }
    let end = if docs.len() == 0 {
        0
    } else {
        at.last() + docs.last().len()
    };
    if docs.len() > 0 {
        assert(stands_at(text, docs[docs.len() - 1], at[docs.len() - 1]));
        assert(stands_at(text, docs[0], at[0]));
        assert forall|i: int| 0 <= i < at[0] implies is_space(#[trigger] longer[i]) by {
            assert(is_space(text[i]));
        }
    }
    assert forall|i: int| end <= i < longer.len() implies is_space(#[trigger] longer[i]) by {
        if i < text.len() {
            assert(is_space(text[i]));
        }
    }
    assert forall|i: int| 0 < i < docs.len() implies at[i - 1] + docs[i - 1].len()
        <= #[trigger] at[i] && blank(longer, at[i - 1] + docs[i - 1].len(), at[i]) && breaks(
        longer,
        at[i - 1] + docs[i - 1].len(),
        at[i],
    ) by {
        let from = at[i - 1] + docs[i - 1].len();
        assert(stands_at(text, docs[i], at[i]));
        assert(stands_at(text, docs[i - 1], at[i - 1]));
        assert forall|j: int| from <= j < at[i] implies is_space(#[trigger] longer[j]) by {
            assert(is_space(text[j]));
        }
        let j = choose|j: int| from <= j < at[i] && #[trigger] text[j] == '\n';
        assert(longer[j] == '\n');
    }
}

/// The documents of a text lie in it in order: outside of them there is nothing but white
/// space, each lies on one line and has no white space at its ends, and no two lie on the same
/// line.
pub proof fn law_documents_lie_in_the_text(text: &str, docs: Vec<Vec<char>>)
    requires
        call_ensures(documents, (text,), docs),
    ensures
        exists|at: Seq<int>| #[trigger] laid_out(text@, contents(docs@), at),
{
    let all = lines(text@);
    let (start, at) = lemma_lines_lie(text@);
    let more = lemma_last_line(text@, start, nonblank(all.drop_last()), at);
    assert(laid_out(text@, nonblank(all), more));
}

} // verus!
