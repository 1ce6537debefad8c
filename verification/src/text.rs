//! Documents and their tokens.
use vstd::prelude::*;

verus! {

/// The characters that Unicode counts as white space.
pub open spec fn is_space(c: char) -> bool {
    ||| '\u{9}' <= c <= '\u{d}'
    ||| c == ' '
    ||| c == '\u{85}'
    ||| c == '\u{a0}'
    ||| c == '\u{1680}'
    ||| '\u{2000}' <= c <= '\u{200a}'
    ||| c == '\u{2028}'
    ||| c == '\u{2029}'
    ||| c == '\u{202f}'
    ||| c == '\u{205f}'
    ||| c == '\u{3000}'
}

/// Whether `c` is white space.
pub fn is_whitespace(c: char) -> (b: bool)
    ensures
        b == is_space(c),
{
    let n: u32 = c as u32;
    (0x9 <= n && n <= 0xd) || n == 0x20 || n == 0x85 || n == 0xa0 || n == 0x1680 || (0x2000 <= n
        && n <= 0x200a) || n == 0x2028 || n == 0x2029 || n == 0x202f || n == 0x205f || n == 0x3000
}

/// The characters of a text.
pub fn chars_of(text: &str) -> (chars: Vec<char>)
    ensures
        chars@ == text@,
{
    let mut chars: Vec<char> = Vec::new();
    for c in it: text.chars()
        invariant
            chars@ == it.seq().take(it.index() as int),
    {
        chars.push(c);
    }
    chars
}

/// The lines of a text: what stands between its line feeds.
pub open spec fn lines(text: Seq<char>) -> Seq<Seq<char>>
    decreases text.len(),
{
    if text.len() == 0 {
        seq![Seq::empty()]
    } else {
        let before = lines(text.drop_last());
        if text.last() == '\n' {
            before.push(Seq::empty())
        } else {
            before.drop_last().push(before.last().push(text.last()))
        }
    }
}

/// A line without the white space at its start.
pub open spec fn trim_start(line: Seq<char>) -> Seq<char>
    decreases line.len(),
{
    if line.len() > 0 && is_space(line[0]) {
        trim_start(line.skip(1))
    } else {
        line
    }
}

/// A line without the white space at its end.
pub open spec fn trim_end(line: Seq<char>) -> Seq<char>
    decreases line.len(),
{
    if line.len() > 0 && is_space(line.last()) {
        trim_end(line.drop_last())
    } else {
        line
    }
}

/// A line without the white space around it.
pub open spec fn trimmed(line: Seq<char>) -> Seq<char> {
    trim_end(trim_start(line))
}

/// The lines that hold anything but white space, without the white space around them.
pub open spec fn nonblank(lines: Seq<Seq<char>>) -> Seq<Seq<char>>
    decreases lines.len(),
{
    if lines.len() == 0 {
        Seq::empty()
    } else {
        let before = nonblank(lines.drop_last());
        let line = trimmed(lines.last());
        if line.len() == 0 {
            before
        } else {
            before.push(line)
        }
    }
}

/// The contents of a list of documents.
pub open spec fn contents(docs: Seq<Vec<char>>) -> Seq<Seq<char>> {
    Seq::new(docs.len(), |i: int| docs[i]@)
}

/// The part of `chars` from `start` to `end`, without the white space around it.
fn trim(chars: &Vec<char>, start: usize, end: usize) -> (line: Vec<char>)
    requires
        start <= end <= chars@.len(),
    ensures
        line@ == trimmed(chars@.subrange(start as int, end as int)),
{
    let ghost whole = chars@.subrange(start as int, end as int);
    let mut a: usize = start;
    let mut b: usize = end;
    while a < b && is_whitespace(chars[a])
        invariant
            start <= a <= b == end <= chars@.len(),
            trim_start(chars@.subrange(a as int, b as int)) == trim_start(whole),
        ensures
            start <= a <= b == end <= chars@.len(),
            chars@.subrange(a as int, b as int) == trim_start(whole),
        decreases b - a,
    {
        assert(chars@.subrange(a as int, b as int).skip(1) =~= chars@.subrange(a + 1, b as int));
        a = a + 1;
    }
    while a < b && is_whitespace(chars[b - 1])
        invariant
            start <= a <= b <= chars@.len(),
            trim_end(chars@.subrange(a as int, b as int)) == trimmed(whole),
        ensures
            start <= a <= b <= chars@.len(),
            chars@.subrange(a as int, b as int) == trimmed(whole),
        decreases b - a,
    {
        assert(chars@.subrange(a as int, b as int).drop_last() =~= chars@.subrange(
            a as int,
            b - 1,
        ));
        b = b - 1;
    }
    let mut line: Vec<char> = Vec::new();
    for i in a..b
        invariant
            a <= b <= chars@.len(),
            line@ == chars@.subrange(a as int, i as int),
    {
        line.push(chars[i]);
        assert(line@ =~= chars@.subrange(a as int, i + 1));
    }
    line
}

/// Appends a line to a list of documents, unless it is blank.
fn push_line(docs: &mut Vec<Vec<char>>, line: Vec<char>)
    ensures
        contents(final(docs)@) == if line@.len() == 0 {
            contents(old(docs)@)
        } else {
            contents(old(docs)@).push(line@)
        },
{
    if line.len() > 0 {
        docs.push(line);
        assert(contents(docs@) =~= contents(old(docs)@).push(line@));
    }
}

/// The documents of a text: one for each line that is not blank.
pub fn documents(text: &str) -> (docs: Vec<Vec<char>>)
    ensures
        contents(docs@) == nonblank(lines(text@)),
{
    let chars: Vec<char> = chars_of(text);
    let mut docs: Vec<Vec<char>> = Vec::new();
    let mut start: usize = 0;
    let n: usize = chars.len();
    assert(contents(docs@) =~= nonblank(lines(chars@.take(0)).drop_last()));
    assert(lines(chars@.take(0)).last() =~= chars@.subrange(0, 0));
    for i in 0..n
        invariant
            n == chars@.len(),
            start <= i,
            lines(chars@.take(i as int)).len() > 0,
            contents(docs@) == nonblank(lines(chars@.take(i as int)).drop_last()),
            lines(chars@.take(i as int)).last() == chars@.subrange(start as int, i as int),
    {
        let ghost before = lines(chars@.take(i as int));
        let ghost after = lines(chars@.take(i + 1));
        assert(chars@.take(i + 1).drop_last() =~= chars@.take(i as int));
        if chars[i] == '\n' {
            push_line(&mut docs, trim(&chars, start, i));
            start = i + 1;
            proof {
                assert(after.drop_last() =~= before);
                assert(after.last() =~= chars@.subrange(start as int, i + 1));
            }
        } else {
            proof {
                assert(after.drop_last() =~= before.drop_last());
                assert(after.last() =~= chars@.subrange(start as int, i + 1));
            }
        }
    }
    push_line(&mut docs, trim(&chars, start, n));
    assert(chars@.take(n as int) =~= chars@);
    docs
}

/// Whether `c` occurs in one of the documents.
pub open spec fn occurs(docs: Seq<Seq<char>>, c: char) -> bool {
    exists|i: int| 0 <= i < docs.len() && #[trigger] docs[i].contains(c)
}

/// Whether `chars` is in strictly ascending order.
pub open spec fn ascending(chars: Seq<char>) -> bool {
    forall|i: int, j: int| 0 <= i < j < chars.len() ==> chars[i] < chars[j]
}

/// Whether `chars` is the alphabet of `docs`: the characters that occur in it, each once, in
/// order.
pub open spec fn is_alphabet(chars: Seq<char>, docs: Seq<Seq<char>>) -> bool {
    &&& ascending(chars)
    &&& forall|c: char| #[trigger] chars.contains(c) <==> occurs(docs, c)
}

/// Translates documents to tokens and back: a token is the place of a character in the
/// alphabet. One more token marks where a document begins and ends.
pub struct Tokenizer {
    pub uchars: Vec<char>,
}

/// Adds `c` to an ascending list of characters, unless it is there.
fn insert_char(chars: &mut Vec<char>, c: char)
    requires
        ascending(old(chars)@),
    ensures
        ascending(final(chars)@),
        forall|d: char| #[trigger]
            final(chars)@.contains(d) <==> old(chars)@.contains(d) || d == c,
{
    let n: usize = chars.len();
    let mut i: usize = 0;
    while i < n && chars[i] < c
        invariant
            i <= n == chars@.len(),
            forall|k: int| 0 <= k < i ==> chars@[k] < c,
        ensures
            i <= n == chars@.len(),
            forall|k: int| 0 <= k < i ==> chars@[k] < c,
            i < n ==> chars@[i as int] >= c,
        decreases n - i,
    {
        i = i + 1;
    }
    if i < n && chars[i] == c {
        assert(chars@.contains(c)) by {
            assert(chars@[i as int] == c);
        }
        return ;
    }
    let ghost before = chars@;
    chars.insert(i, c);
    proof {
        assert(chars@ =~= before.insert(i as int, c));
        assert forall|d: char| #[trigger] chars@.contains(d) <==> before.contains(d) || d == c by {
            if before.contains(d) {
                let k = choose|k: int| 0 <= k < before.len() && before[k] == d;
                if k < i {
                    assert(chars@[k] == d);
                } else {
                    assert(chars@[k + 1] == d);
                }
            }
            if d == c {
                assert(chars@[i as int] == d);
            }
            if chars@.contains(d) {
                let k = choose|k: int| 0 <= k < chars@.len() && chars@[k] == d;
                if k < i {
                    assert(before[k] == d);
                } else if k > i {
                    assert(before[k - 1] == d);
                }
            }
        }
    }
}

/// Characters are numbered from zero.
proof fn lemma_char_range(c: char)
    ensures
        0 <= c as int <= 0x10ffff,
{
}

/// An ascending list of characters is no longer than there are characters.
proof fn lemma_alphabet_small(chars: Seq<char>, i: int)
    requires
        ascending(chars),
        0 <= i < chars.len(),
    ensures
        chars[i] as int >= i,
        i <= 0x10ffff,
    decreases i,
{
    lemma_char_range(chars[i]);
    if i > 0 {
        lemma_alphabet_small(chars, i - 1);
        assert(chars[i - 1] < chars[i]);
    }
}

/// Tokens fit in 32 bits.
pub proof fn lemma_alphabet_fits(chars: Seq<char>)
    requires
        ascending(chars),
    ensures
        chars.len() <= 0x11_0000,
{
    if chars.len() > 0 {
        lemma_alphabet_small(chars, chars.len() - 1);
    }
}

/// The tokens of a document over an alphabet, with the mark at both ends.
pub open spec fn is_encoding(alphabet: Seq<char>, doc: Seq<char>, tokens: Seq<usize>) -> bool {
    &&& tokens.len() == doc.len() + 2
    &&& tokens[0] == alphabet.len()
    &&& tokens.last() == alphabet.len()
    &&& forall|i: int|
        1 <= i <= doc.len() ==> #[trigger] tokens[i] < alphabet.len() && alphabet[tokens[i] as int]
            == doc[i - 1]
}

impl Tokenizer {
    /// Whether the alphabet is in order.
    pub open spec fn wf(&self) -> bool {
        ascending(self.uchars@)
    }

    /// The tokenizer whose alphabet is that of `docs`.
    pub fn new(docs: &Vec<Vec<char>>) -> (t: Tokenizer)
        ensures
            t.wf(),
            is_alphabet(t.uchars@, contents(docs@)),
            t.uchars@.len() <= 0x11_0000,
    {
        let mut chars: Vec<char> = Vec::new();
        let ghost all = contents(docs@);
        assert(contents(docs@).take(0) =~= Seq::empty());
        for i in 0..docs.len()
            invariant
                all == contents(docs@),
                ascending(chars@),
                forall|c: char| #[trigger] chars@.contains(c) <==> occurs(all.take(i as int), c),
        {
            let doc: &Vec<char> = &docs[i];
            let ghost start = chars@;
            for j in 0..doc.len()
                invariant
                    ascending(chars@),
                    forall|c: char| #[trigger]
                        chars@.contains(c) <==> start.contains(c) || doc@.take(j as int).contains(
                            c,
                        ),
            {
                let ghost so_far = chars@;
                insert_char(&mut chars, doc[j]);
                proof {
                    let (short, long) = (doc@.take(j as int), doc@.take(j + 1));
                    assert(long =~= short.push(doc@[j as int]));
                    assert forall|c: char| #[trigger] long.contains(c) <==> short.contains(c) || c
                        == doc@[j as int] by {
                        lemma_push_contains(short, doc@[j as int], c);
                    }
                    assert forall|c: char| #[trigger] chars@.contains(c) <==> start.contains(c)
                        || long.contains(c) by {
                        assert(so_far.contains(c) <==> start.contains(c) || short.contains(c));
                    }
                }
            }
            proof {
                assert(doc@.take(doc@.len() as int) =~= doc@);
                assert forall|c: char| #[trigger] chars@.contains(c) <==> occurs(
                    all.take(i + 1),
                    c,
                ) by {
                    lemma_occurs_push(all, i as int, c);
                    assert(start.contains(c) <==> occurs(all.take(i as int), c));
                }
            }
        }
        proof {
            assert(all.take(all.len() as int) =~= all);
            lemma_alphabet_fits(chars@);
        }
        Tokenizer { uchars: chars }
    }

    /// The token that marks where a document begins and ends.
    pub fn bos(&self) -> (id: usize)
        ensures
            id == self.uchars@.len(),
    {
        self.uchars.len()
    }

    /// The number of tokens.
    pub fn vocab_size(&self) -> (n: usize)
        requires
            self.wf(),
        ensures
            n == self.uchars@.len() + 1,
    {
        proof {
            lemma_alphabet_fits(self.uchars@);
        }
        self.uchars.len() + 1
    }

    /// The token of a character.
    pub fn id_of(&self, c: char) -> (id: usize)
        requires
            self.uchars@.contains(c),
        ensures
            id < self.uchars@.len(),
            self.uchars@[id as int] == c,
    {
        let n: usize = self.uchars.len();
        let mut i: usize = 0;
        while self.uchars[i] != c
            invariant
                n == self.uchars@.len(),
                self.uchars@.contains(c),
                i < self.uchars@.len(),
                forall|k: int| 0 <= k < i ==> self.uchars@[k] != c,
            ensures
                i < self.uchars@.len(),
                self.uchars@[i as int] == c,
            decreases self.uchars@.len() - i,
        {
            proof {
                let k = choose|k: int| 0 <= k < self.uchars@.len() && self.uchars@[k] == c;
                assert(k > i);
            }
            i = i + 1;
        }
        i
    }

    /// The character of a token.
    pub fn char_of(&self, id: usize) -> (c: char)
        requires
            id < self.uchars@.len(),
        ensures
            c == self.uchars@[id as int],
    {
        self.uchars[id]
    }

    /// The tokens of a document, with the mark at both ends.
    pub fn encode(&self, doc: &Vec<char>) -> (tokens: Vec<usize>)
        requires
            forall|i: int|
                0 <= i < doc@.len() ==> self.uchars@.contains(#[trigger] doc@[i]),
        ensures
            is_encoding(self.uchars@, doc@, tokens@),
    {
        let mut tokens: Vec<usize> = Vec::new();
        tokens.push(self.bos());
        for i in 0..doc.len()
            invariant
                forall|k: int|
                    0 <= k < doc@.len() ==> self.uchars@.contains(#[trigger] doc@[k]),
                tokens@.len() == i + 1,
                tokens@[0] == self.uchars@.len(),
                forall|k: int|
                    1 <= k <= i ==> #[trigger] tokens@[k] < self.uchars@.len()
                        && self.uchars@[tokens@[k] as int] == doc@[k - 1],
        {
            tokens.push(self.id_of(doc[i]));
        }
        tokens.push(self.bos());
        tokens
    }
}

proof fn lemma_push_contains(s: Seq<char>, d: char, c: char)
    ensures
        s.push(d).contains(c) <==> s.contains(c) || c == d,
{
    let t = s.push(d);
    if s.contains(c) {
        let k = choose|k: int| 0 <= k < s.len() && s[k] == c;
        assert(t[k] == c);
    }
    if c == d {
        assert(t[s.len() as int] == c);
    }
    if t.contains(c) {
        let k = choose|k: int| 0 <= k < t.len() && t[k] == c;
        if k < s.len() {
            assert(s[k] == c);
        }
    }
}

/// A character occurs in one document more where it occurs in those before or in that one.
proof fn lemma_occurs_push(docs: Seq<Seq<char>>, i: int, c: char)
    requires
        0 <= i < docs.len(),
    ensures
        occurs(docs.take(i + 1), c) <==> occurs(docs.take(i), c) || docs[i].contains(c),
{
    let (short, long) = (docs.take(i), docs.take(i + 1));
    if occurs(short, c) {
        let k = choose|k: int| 0 <= k < short.len() && #[trigger] short[k].contains(c);
        assert(long[k].contains(c));
    }
    if docs[i].contains(c) {
        assert(long[i].contains(c));
    }
    if occurs(long, c) {
        let k = choose|k: int| 0 <= k < long.len() && #[trigger] long[k].contains(c);
        if k < i {
            assert(short[k].contains(c));
        }
    }
}

/// There is only one alphabet: it depends on which characters occur, not on where. So
/// documents in another order have the same tokens.
pub proof fn law_alphabet_is_unique(a: Seq<char>, b: Seq<char>)
    requires
        ascending(a),
        ascending(b),
        forall|c: char| #[trigger] a.contains(c) <==> b.contains(c),
    ensures
        a == b,
{
    lemma_same_prefix(a, b, a.len());
    assert forall|c: char| #[trigger] b.contains(c) <==> a.contains(c) by {
        assert(a.contains(c) <==> b.contains(c));
    }
    lemma_same_prefix(b, a, b.len());
    assert(a =~= b);
}

/// An alphabet that contains another one's characters is as long, and starts with them.
proof fn lemma_same_prefix(a: Seq<char>, b: Seq<char>, n: nat)
    requires
        ascending(a),
        ascending(b),
        forall|c: char| #[trigger] a.contains(c) <==> b.contains(c),
        n <= a.len(),
    ensures
        n <= b.len(),
        forall|i: int| 0 <= i < n ==> a[i] == b[i],
    decreases n,
{
    if n > 0 {
        lemma_same_prefix(a, b, (n - 1) as nat);
        let i = n - 1;
        assert(a.contains(a[i]));
        let k = choose|k: int| 0 <= k < b.len() && b[k] == a[i];
        if k < i {
            assert(a[k] == b[k]);
            assert(a[k] < a[i]);
        }
        assert(k >= i);
        if k > i {
            assert(b.contains(b[i]) && a.contains(b[i]));
            let j = choose|j: int| 0 <= j < a.len() && a[j] == b[i];
            assert(b[i] < b[k]);
            if j < i {
                assert(a[j] == b[j]);
                assert(b[j] < b[i]);
            } else if j > i {
                assert(a[i] < a[j]);
            }
        }
    }
}

/// Different documents have different tokens: the characters can be read back from them.
pub proof fn law_encoding_is_reversible(
    alphabet: Seq<char>,
    doc: Seq<char>,
    other: Seq<char>,
    tokens: Seq<usize>,
)
    requires
        is_encoding(alphabet, doc, tokens),
        is_encoding(alphabet, other, tokens),
    ensures
        doc == other,
{
    assert forall|i: int| 0 <= i < doc.len() implies doc[i] == other[i] by {
        assert(alphabet[tokens[i + 1] as int] == doc[i + 1 - 1]);
        assert(alphabet[tokens[i + 1] as int] == other[i + 1 - 1]);
    }
    assert(doc =~= other);
}

/// A document has only one encoding.
pub proof fn law_encoding_is_unique(
    alphabet: Seq<char>,
    doc: Seq<char>,
    tokens: Seq<usize>,
    other: Seq<usize>,
)
    requires
        ascending(alphabet),
        is_encoding(alphabet, doc, tokens),
        is_encoding(alphabet, doc, other),
    ensures
        tokens == other,
{
    assert forall|i: int| 0 <= i < tokens.len() implies tokens[i] == other[i] by {
        if 1 <= i <= doc.len() {
            let (x, y) = (tokens[i] as int, other[i] as int);
            assert(alphabet[x] == alphabet[y]);
            if x < y {
                assert(alphabet[x] < alphabet[y]);
            } else if y < x {
                assert(alphabet[y] < alphabet[x]);
            }
        }
    }
    assert(tokens =~= other);
}

} // verus!
