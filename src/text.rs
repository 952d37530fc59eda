use vstd::prelude::*;

verus! {

/// Relies on `String::push`: the character is appended at the end.
pub assume_specification[ String::push ](s: &mut String, ch: char)
    ensures
        final(s)@ == old(s)@.push(ch),
;

/// The escape sequence that stands for one character inside a quoted literal.
pub open spec fn escape_char(c: char) -> Seq<char> {
    if c == '\\' {
        seq!['\\', '\\']
    } else if c == '"' {
        seq!['\\', '"']
    } else if c == '\n' {
        seq!['\\', 'n']
    } else if c == '\r' {
        seq!['\\', 'r']
    } else if c == '\t' {
        seq!['\\', 't']
    } else {
        seq![c]
    }
}

/// Each character of `s` replaced by its escape sequence.
pub open spec fn escaped(s: Seq<char>) -> Seq<char>
    decreases s.len(),
{
    if s.len() == 0 {
        Seq::empty()
    } else {
        escaped(s.drop_last()) + escape_char(s.last())
    }
}

/// `s` escaped and wrapped in double quotes.
pub open spec fn quoted(s: Seq<char>) -> Seq<char> {
    seq!['"'] + escaped(s) + seq!['"']
}

proof fn lemma_escaped_concat(a: Seq<char>, b: Seq<char>)
    ensures
        escaped(a + b) == escaped(a) + escaped(b),
    decreases b.len(),
{
    if b.len() == 0 {
        assert(a + b =~= a);
        assert(escaped(a) + escaped(b) =~= escaped(a));
    } else {
        lemma_escaped_concat(a, b.drop_last());
        assert((a + b).drop_last() =~= a + b.drop_last());
        assert((a + b).last() == b.last());
        assert(escaped(a + b) =~= escaped(a) + escaped(b));
    }
}

/// A backslash followed by a double quote comes out as the four characters `\\\"`: the
/// backslash is escaped first and on its own, and its escape is not escaped again.
pub proof fn lemma_backslash_before_quote(s: Seq<char>, i: int)
    requires
        0 <= i,
        i + 1 < s.len(),
        s[i] == '\\',
        s[i + 1] == '"',
    ensures
        ({
            let k = escaped(s.take(i)).len() as int;
            escaped(s).subrange(k, k + 4) == seq!['\\', '\\', '\\', '"']
        }),
{
    let pre = s.take(i);
    let pair = s.subrange(i, i + 2);
    let post = s.skip(i + 2);
    assert(s =~= pre + pair + post);
    lemma_escaped_concat(pre + pair, post);
    lemma_escaped_concat(pre, pair);
    let one = pair.drop_last();
    assert(pair.last() == '"');
    assert(one.len() == 1 && one.last() == '\\');
    assert(escaped(one.drop_last()) =~= Seq::<char>::empty());
    assert(escaped(one) =~= seq!['\\', '\\']);
    assert(escaped(pair) =~= seq!['\\', '\\', '\\', '"']);
    let k = escaped(pre).len() as int;
    assert(escaped(s).subrange(k, k + 4) =~= escaped(pair));
}

/// Escapes backslash, double quote, newline, carriage return and tab.
pub fn escape_string(input: &str) -> (r: String)
    ensures
        r@ == escaped(input@),
{
    let mut out = String::new();
    for c in it: input.chars()
        invariant
            it.seq() == input@,
            out@ == escaped(input@.take(it.index() as int)),
    {
        proof {
            assert(input@.take(it.index() + 1).drop_last() == input@.take(it.index() as int));
        }
        if c == '\\' {
            out.push('\\');
            out.push('\\');
        } else if c == '"' {
            out.push('\\');
            out.push('"');
        } else if c == '\n' {
            out.push('\\');
            out.push('n');
        } else if c == '\r' {
            out.push('\\');
            out.push('r');
        } else if c == '\t' {
            out.push('\\');
            out.push('t');
        } else {
            out.push(c);
        }
    }
    assert(input@.take(input@.len() as int) == input@);
    out
}

/// Renders `input` as a double-quoted literal with its special characters escaped.
pub fn to_rust_string(input: &str) -> (r: String)
    ensures
        r@ == quoted(input@),
{
    let mut out = String::new();
    out.push('"');
    let body = escape_string(input);
    out.append(body.as_str());
    out.push('"');
    out
}

/// What `char::to_lowercase` yields for one character.
pub uninterp spec fn char_lower(c: char) -> Seq<char>;

/// What `str::to_lowercase` returns for a string.
pub uninterp spec fn str_lower(s: Seq<char>) -> Seq<char>;

/// Relies on `char::to_lowercase`: the lowercase mapping of one character, collected.
#[verifier::external_body]
fn lowercase_char(c: char) -> (r: String)
    ensures
        r@ == char_lower(c),
{
    c.to_lowercase().collect()
}

/// Relies on `str::to_lowercase`: the lowercase form of a whole string.
#[verifier::external_body]
fn lowercase_str(s: &str) -> (r: String)
    ensures
        r@ == str_lower(s@),
{
    s.to_lowercase()
}

/// The piece of a name that stands for its character at `i`: the first one lowercased,
/// every other one as it is.
pub open spec fn name_piece(s: Seq<char>, i: int) -> Seq<char> {
    if i == 0 {
        char_lower(s[0])
    } else {
        seq![s[i]]
    }
}

/// A piece that lowercasing leaves alone is kept; any other one becomes an underscore
/// followed by its lowercase form.
pub open spec fn snake_piece(p: Seq<char>) -> Seq<char> {
    snake_of_piece(p, str_lower(p))
}

/// A piece given with its lowercase form: kept where the two agree, else an underscore
/// followed by the lowercase form.
pub open spec fn snake_of_piece(p: Seq<char>, lowered: Seq<char>) -> Seq<char> {
    if lowered == p {
        p
    } else {
        seq!['_'] + lowered
    }
}

/// Writes one piece of a name in snake form, given the piece and its lowercase form.
pub fn snake_piece_of(piece: &str, lowered: &str) -> (r: String)
    ensures
        r@ == snake_of_piece(piece@, lowered@),
{
    let mut out = String::new();
    let a = chars_of(piece);
    let b = chars_of(lowered);
    let same = same_chars(&a, &b);
    if same {
        out.append(piece);
    } else {
        out.push('_');
        out.append(lowered);
    }
    out
}

fn same_chars(a: &Vec<char>, b: &Vec<char>) -> (r: bool)
    ensures
        r == (a@ == b@),
{
    if a.len() != b.len() {
        return false;
    }
    let mut i: usize = 0;
    while i < a.len()
        invariant
            a@.len() == b@.len(),
            i <= a@.len(),
            forall|k: int| 0 <= k < i ==> a@[k] == b@[k],
        decreases a.len() - i,
    {
        if a[i] != b[i] {
            return false;
        }
        i = i + 1;
    }
    assert(a@ =~= b@);
    true
}

/// The snake form of the first `n` characters of `s`.
pub open spec fn snake_prefix(s: Seq<char>, n: nat) -> Seq<char>
    decreases n,
{
    if n == 0 {
        Seq::empty()
    } else {
        snake_prefix(s, (n - 1) as nat) + snake_piece(name_piece(s, n - 1))
    }
}

/// The lower-case, underscore-separated form of an attribute name.
pub open spec fn snake_name(s: Seq<char>) -> Seq<char> {
    snake_prefix(s, s.len())
}

/// Converts an upper- or mixed-case attribute name to its snake form:
/// `SomeAttribute` becomes `some_attribute`.
pub fn normalize_name(raw: &str) -> (r: String)
    ensures
        r@ == snake_name(raw@),
{
    let mut out = String::new();
    let mut first = true;
    for c in it: raw.chars()
        invariant
            it.seq() == raw@,
            first == (it.index() == 0),
            out@ == snake_prefix(raw@, it.index() as nat),
    {
        let piece = if first {
            lowercase_char(c)
        } else {
            let mut one = String::new();
            one.push(c);
            one
        };
        first = false;
        let lower = lowercase_str(piece.as_str());
        let snake = snake_piece_of(piece.as_str(), lower.as_str());
        out.append(snake.as_str());
    }
    out
}

/// The opening delimiter of a markup comment, with the space after it.
pub open spec fn comment_open() -> Seq<char> {
    seq!['<', '!', '-', '-', ' ']
}

/// The closing delimiter of a markup comment, with the space before it.
pub open spec fn comment_close() -> Seq<char> {
    seq![' ', '-', '-', '>']
}

/// `s` without one leading comment opener, where it has one.
pub open spec fn without_open(s: Seq<char>) -> Seq<char> {
    if s.len() >= 5 && s.take(5) == comment_open() {
        s.skip(5)
    } else {
        s
    }
}

/// `s` without one trailing comment closer, where it has one.
pub open spec fn without_close(s: Seq<char>) -> Seq<char> {
    if s.len() >= 4 && s.skip(s.len() - 4) == comment_close() {
        s.take(s.len() - 4)
    } else {
        s
    }
}

/// The body of a comment: one layer of delimiters taken off each end.
pub open spec fn comment_body(s: Seq<char>) -> Seq<char> {
    without_close(without_open(s))
}

pub(crate) fn chars_of(s: &str) -> (r: Vec<char>)
    ensures
        r@ == s@,
{
    let mut v: Vec<char> = Vec::new();
    for c in it: s.chars()
        invariant
            it.seq() == s@,
            v@ == s@.take(it.index() as int),
    {
        v.push(c);
    }
    assert(s@.take(s@.len() as int) == s@);
    v
}

/// Takes one layer of comment delimiters off each end of `raw`.
pub fn strip_comment(raw: &str) -> (r: String)
    ensures
        r@ == comment_body(raw@),
{
    let v = chars_of(raw);
    let n = v.len();
    let opens = n >= 5 && v[0] == '<' && v[1] == '!' && v[2] == '-' && v[3] == '-' && v[4] == ' ';
    let start: usize = if opens { 5 } else { 0 };
    let m = n - start;
    let closes = m >= 4 && v[n - 4] == ' ' && v[n - 3] == '-' && v[n - 2] == '-' && v[n - 1] == '>';
    let end: usize = if closes { n - 4 } else { n };
    proof {
        let s = raw@;
        assert(opens == (s.len() >= 5 && s.take(5) == comment_open())) by {
            if s.len() >= 5 && s.take(5) == comment_open() {
                assert(s.take(5)[1] == s[1]);
            }
            if opens {
                assert(s.take(5) =~= comment_open());
            }
        }
        let a = without_open(s);
        assert(a == s.subrange(start as int, n as int));
        assert(closes == (a.len() >= 4 && a.skip(a.len() - 4) == comment_close())) by {
            if a.len() >= 4 && a.skip(a.len() - 4) == comment_close() {
                assert(a.skip(a.len() - 4)[1] == a[a.len() - 3]);
                assert(a.skip(a.len() - 4)[0] == a[a.len() - 4]);
                assert(a.skip(a.len() - 4)[2] == a[a.len() - 2]);
                assert(a.skip(a.len() - 4)[3] == a[a.len() - 1]);
            }
            if closes {
                assert(a.skip(a.len() - 4) =~= comment_close());
            }
        }
    }
    let mut out = String::new();
    let mut i = start;
    while i < end
        invariant
            start <= i <= end <= n == v@.len(),
            out@ == v@.subrange(start as int, i as int),
        decreases end - i,
    {
        out.push(v[i]);
        i = i + 1;
        proof {
            assert(out@ =~= v@.subrange(start as int, i as int));
        }
    }
    assert(out@ =~= comment_body(raw@));
    out
}

} // verus!
