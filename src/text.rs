use vstd::prelude::*;

verus! {

/// The characters that `char::is_whitespace` accepts (Unicode White_Space).
pub open spec fn is_space(c: char) -> bool {
    ('\u{9}' <= c && c <= '\u{d}') || c == ' ' || c == '\u{85}' || c == '\u{a0}'
        || c == '\u{1680}' || ('\u{2000}' <= c && c <= '\u{200a}') || c == '\u{2028}'
        || c == '\u{2029}' || c == '\u{202f}' || c == '\u{205f}' || c == '\u{3000}'
}

/// Whether `c` separates words of a message line.
pub fn space_char(c: char) -> (r: bool)
    ensures
        r == is_space(c),
{
    ('\u{9}' <= c && c <= '\u{d}') || c == ' ' || c == '\u{85}' || c == '\u{a0}'
        || c == '\u{1680}' || ('\u{2000}' <= c && c <= '\u{200a}') || c == '\u{2028}'
        || c == '\u{2029}' || c == '\u{202f}' || c == '\u{205f}' || c == '\u{3000}'
}

/// The whitespace-separated words of `s`, in order.
pub open spec fn split_words(s: Seq<char>) -> Seq<Seq<char>>
    decreases s.len(),
{
    if s.len() == 0 {
        Seq::empty()
    } else {
        let prev = split_words(s.drop_last());
        let c = s.last();
        if is_space(c) {
            prev
        } else if s.len() >= 2 && !is_space(s[s.len() - 2]) {
            prev.update(prev.len() - 1, prev.last().push(c))
        } else {
            prev.push(seq![c])
        }
    }
}

/// The characters of a string, one by one.
pub fn chars_of(s: &str) -> (r: Vec<char>)
    ensures
        r@ == s@,
{
    let n = s.unicode_len();
    let mut r: Vec<char> = Vec::new();
    let mut i: usize = 0;
    while i < n
        invariant
            n == s@.len(),
            i <= n,
            r@ == s@.take(i as int),
        decreases n - i,
    {
        r.push(s.get_char(i));
        i = i + 1;
        assert(r@ =~= s@.take(i as int));
    }
    assert(r@ =~= s@);
    r
}

/// Whether a sequence of characters spells out the string `t`.
pub fn chars_eq(a: &Vec<char>, t: &str) -> (r: bool)
    ensures
        r == (a@ == t@),
{
    let n = t.unicode_len();
    if a.len() != n {
        return false;
    }
    let mut i: usize = 0;
    while i < n
        invariant
            n == t@.len(),
            a@.len() == n,
            i <= n,
            forall|k: int| 0 <= k < i ==> a@[k] == t@[k],
        decreases n - i,
    {
        if a[i] != t.get_char(i) {
            return false;
        }
        i = i + 1;
    }
    assert(a@ =~= t@);
    true
}

/// What each of a list of character vectors holds.
pub open spec fn views(v: Seq<Vec<char>>) -> Seq<Seq<char>> {
    v.map_values(|w: Vec<char>| w@)
}

/// The words of a line, as `str::split_whitespace` yields them.
pub fn words(line: &Vec<char>) -> (r: Vec<Vec<char>>)
    ensures
        views(r@) == split_words(line@),
{
    let s = line;
    let mut done: Vec<Vec<char>> = Vec::new();
    let mut cur: Vec<char> = Vec::new();
    let mut i: usize = 0;
    while i < s.len()
        invariant
            i <= s@.len(),
            split_words(s@.take(i as int)) == if cur@.len() > 0 {
                views(done@).push(cur@)
            } else {
                views(done@)
            },
            cur@.len() > 0 <==> (i > 0 && !is_space(s@[i - 1])),
        decreases s@.len() - i,
    {
        let c = s[i];
        assert(s@.take(i + 1).drop_last() =~= s@.take(i as int));
        if space_char(c) {
            if cur.len() > 0 {
                let ghost before = views(done@);
                let w = cur;
                cur = Vec::new();
                done.push(w);
                assert(views(done@) =~= before.push(w@));
            }
        } else {
            let ghost before = views(done@);
            let ghost old_cur = cur@;
            cur.push(c);
            assert(views(done@) == before);
            if cur.len() > 1 {
                assert(before.push(old_cur).update(before.len() as int, old_cur.push(c))
                    =~= before.push(cur@));
            } else {
                assert(cur@ =~= seq![c]);
            }
        }
        i = i + 1;
    }
    assert(s@.take(i as int) =~= s@);
    if cur.len() > 0 {
        let ghost before = views(done@);
        let ghost w = cur@;
        done.push(cur);
        assert(views(done@) =~= before.push(w));
    }
    done
}

/// The first word that ends in `:`, if any.
pub open spec fn colon_word(ws: Seq<Seq<char>>) -> Option<Seq<char>>
    decreases ws.len(),
{
    if ws.len() == 0 {
        None
    } else if ws[0].len() > 0 && ws[0].last() == ':' {
        Some(ws[0])
    } else {
        colon_word(ws.drop_first())
    }
}

/// A word with every trailing `:` removed.
pub open spec fn trim_colons(w: Seq<char>) -> Seq<char>
    decreases w.len(),
{
    if w.len() > 0 && w.last() == ':' {
        trim_colons(w.drop_last())
    } else {
        w
    }
}

pub open spec fn is_digit(c: char) -> bool {
    '0' <= c && c <= '9'
}

/// The number that a string of decimal digits spells.
pub open spec fn digits_value(d: Seq<char>) -> int
    decreases d.len(),
{
    if d.len() == 0 {
        0
    } else {
        digits_value(d.drop_last()) * 10 + (d.last() as int - '0' as int)
    }
}

/// A number's digits: the text without its optional leading `+`.
pub open spec fn unsigned_digits(t: Seq<char>) -> Seq<char> {
    if t.len() > 0 && t[0] == '+' {
        t.drop_first()
    } else {
        t
    }
}

/// What `usize::from_str` accepts: an optional `+`, then one or more decimal
/// digits whose value fits in a `usize`.
pub open spec fn parse_usize(t: Seq<char>) -> Option<usize> {
    let d = unsigned_digits(t);
    if d.len() > 0 && (forall|k: int| 0 <= k < d.len() ==> is_digit(#[trigger] d[k]))
        && digits_value(d) <= usize::MAX {
        Some(digits_value(d) as usize)
    } else {
        None
    }
}

/// The row count of a block header: the first word that ends in `:`, with its
/// colons trimmed, read as a number.
pub open spec fn header_count(line: Seq<char>) -> Option<usize> {
    match colon_word(split_words(line)) {
        Some(w) => parse_usize(trim_colons(w)),
        None => None,
    }
}

proof fn lemma_digits_value_grows(d: Seq<char>, i: int)
    requires
        0 <= i <= d.len(),
        forall|k: int| 0 <= k < d.len() ==> is_digit(#[trigger] d[k]),
    ensures
        digits_value(d) >= digits_value(d.take(i)),
        digits_value(d.take(i)) >= 0,
    decreases d.len(),
{
    if d.len() > 0 {
        assert(d.drop_last().take(i) =~= d.take(i) || i == d.len());
        if i == d.len() {
            assert(d.take(i) =~= d);
            if i > 0 {
                lemma_digits_value_grows(d.drop_last(), 0);
            }
        } else {
            lemma_digits_value_grows(d.drop_last(), i);
        }
    } else {
        assert(d.take(i) =~= d);
    }
}

/// Reads a decimal number as `usize::from_str` does.
pub fn read_usize(t: &Vec<char>) -> (r: Option<usize>)
    ensures
        r == parse_usize(t@),
{
    let start: usize = if t.len() > 0 && t[0] == '+' {
        1
    } else {
        0
    };
    let ghost d = unsigned_digits(t@);
    assert(d =~= t@.skip(start as int));
    if start >= t.len() {
        return None;
    }
    let mut acc: usize = 0;
    let mut i: usize = start;
    while i < t.len()
        invariant
            start <= i <= t@.len(),
            d == unsigned_digits(t@),
            d =~= t@.skip(start as int),
            forall|k: int| start <= k < i ==> is_digit(#[trigger] t@[k]),
            acc as int == digits_value(d.take(i - start)),
        decreases t@.len() - i,
    {
        let c = t[i];
        if !('0' <= c && c <= '9') {
            assert(d[i - start] == c);
            assert(!is_digit(d[i - start]));
            assert(!(forall|k: int| 0 <= k < d.len() ==> is_digit(#[trigger] d[k])));
            return None;
        }
        let v = (c as u32 - '0' as u32) as usize;
        assert(d.take(i + 1 - start).drop_last() =~= d.take(i - start));
        assert(d.take(i + 1 - start).last() == c);
        assert(digits_value(d.take(i + 1 - start)) == acc * 10 + v);
        if acc > (usize::MAX - v) / 10 {
            proof {
                assert(acc * 10 + v > usize::MAX) by (nonlinear_arith)
                    requires acc > (usize::MAX - v) / 10, v <= 9;
                if forall|k: int| 0 <= k < d.len() ==> is_digit(#[trigger] d[k]) {
                    lemma_digits_value_grows(d, i + 1 - start);
                    assert(digits_value(d) > usize::MAX);
                }
            }
            return None;
        }
        proof {
            assert(acc * 10 + v <= usize::MAX) by (nonlinear_arith)
                requires acc <= (usize::MAX - v) / 10, v <= 9;
        }
        acc = acc * 10 + v;
        i = i + 1;
    }
    assert(d.take(i - start) =~= d);
    Some(acc)
}

/// The row count named by a block header line, if it names one.
pub fn read_header_count(line: &Vec<char>) -> (r: Option<usize>)
    ensures
        r == header_count(line@),
{
    let ws = words(line);
    let mut i: usize = 0;
    assert(views(ws@).skip(0) =~= views(ws@));
    while i < ws.len()
        invariant
            i <= ws@.len(),
            views(ws@) == split_words(line@),
            colon_word(views(ws@)) == colon_word(views(ws@).skip(i as int)),
        decreases ws@.len() - i,
    {
        let w = &ws[i];
        assert(views(ws@).skip(i as int)[0] == w@);
        assert(views(ws@).skip(i as int).drop_first() =~= views(ws@).skip(i + 1));
        if w.len() > 0 && w[w.len() - 1] == ':' {
            let mut n: usize = w.len();
            assert(w@.take(w@.len() as int) =~= w@);
            while n > 0 && w[n - 1] == ':'
                invariant
                    n <= w@.len(),
                    trim_colons(w@) == trim_colons(w@.take(n as int)),
                decreases n,
            {
                assert(w@.take(n as int).drop_last() =~= w@.take(n - 1));
                n = n - 1;
            }
            assert(w@.take(w@.len() as int) =~= w@);
            let mut body: Vec<char> = Vec::new();
            let mut k: usize = 0;
            while k < n
                invariant
                    k <= n <= w@.len(),
                    body@ =~= w@.take(k as int),
                decreases n - k,
            {
                body.push(w[k]);
                k = k + 1;
            }
            return read_usize(&body);
        }
        i = i + 1;
    }
    assert(views(ws@).skip(i as int) =~= Seq::<Seq<char>>::empty());
    None
}

/// Whether `t` occurs in `s` as a run of consecutive characters.
pub open spec fn has_infix(s: Seq<char>, t: Seq<char>) -> bool {
    exists|k: int| 0 <= k <= s.len() - t.len() && #[trigger] s.subrange(k, k + t.len()) == t
}

/// Whether `t` occurs in `s`, as `str::contains` decides it.
pub fn contains_chars(s: &Vec<char>, t: &Vec<char>) -> (r: bool)
    ensures
        r == has_infix(s@, t@),
{
    if t.len() > s.len() {
        return false;
    }
    let last = s.len() - t.len();
    let mut k: usize = 0;
    while k <= last
        invariant
            t@.len() <= s@.len(),
            last == s@.len() - t@.len(),
            forall|m: int| 0 <= m < k ==> #[trigger] s@.subrange(m, m + t@.len()) != t@,
        decreases last + 1 - k,
    {
        let mut j: usize = 0;
        while j < t.len()
            invariant
                k <= last,
                k + t@.len() <= s@.len(),
                t@.len() <= s@.len(),
                last == s@.len() - t@.len(),
                j <= t@.len(),
                forall|m: int| 0 <= m < j ==> s@[k + m] == t@[m],
            ensures
                j <= t@.len(),
                forall|m: int| 0 <= m < j ==> s@[k + m] == t@[m],
                j < t@.len() ==> s@[k + j] != t@[j as int],
            decreases t@.len() - j,
        {
            assert(k + j < s@.len());
            assert(s@.len() == s.len());
            if s[k + j] != t[j] {
                break;
            }
            j = j + 1;
        }
        if j == t.len() {
            assert(s@.subrange(k as int, k + t@.len()) =~= t@);
            return true;
        }
        assert(s@.subrange(k as int, k + t@.len())[j as int] != t@[j as int]);
        if k == last {
            assert forall|m: int| 0 <= m <= s@.len() - t@.len() implies #[trigger] s@.subrange(
                m,
                m + t@.len(),
            ) != t@ by {
                if m == k {
                    assert(s@.subrange(m, m + t@.len())[j as int] != t@[j as int]);
                }
            }
            return false;
        }
        k = k + 1;
    }
    false
}

/// What a line of the game's input announces, by its first word.
pub enum Message {
    /// The player's identity: the line starts with `$$$` or `exec`.
    PlayerInfo,
    /// A board block of the given number of rows: the line starts with `Anfield`.
    GridHeader(usize),
    /// A piece block of the given number of rows: the line starts with `Piece`.
    PieceHeader(usize),
    /// Any other line, which is ignored.
    Other,
}

/// Why a message could not be taken in.
#[derive(Debug, PartialEq, Eq, Structural)]
pub enum InputError {
    /// A block header names no row count.
    BadHeader,
    /// A player-info line has fewer than three words.
    MissingPlayerId,
    /// The rows of a board block differ in length.
    RaggedGrid,
}

/// What a line announces, or why it cannot be read.
pub open spec fn line_message(line: Seq<char>) -> Result<Message, InputError> {
    let ws = split_words(line);
    if ws.len() == 0 {
        Ok(Message::Other)
    } else if ws[0] == "$$$"@ || ws[0] == "exec"@ {
        Ok(Message::PlayerInfo)
    } else if ws[0] == "Anfield"@ {
        match header_count(line) {
            Some(n) => Ok(Message::GridHeader(n)),
            None => Err(InputError::BadHeader),
        }
    } else if ws[0] == "Piece"@ {
        match header_count(line) {
            Some(n) => Ok(Message::PieceHeader(n)),
            None => Err(InputError::BadHeader),
        }
    } else {
        Ok(Message::Other)
    }
}

/// Dispatches an input line on its first word.
pub fn classify_line(line: &str) -> (r: Result<Message, InputError>)
    ensures
        r == line_message(line@),
{
    let cs = chars_of(line);
    let ws = words(&cs);
    if ws.len() == 0 {
        return Ok(Message::Other);
    }
    let first = &ws[0];
    if chars_eq(first, "$$$") || chars_eq(first, "exec") {
        Ok(Message::PlayerInfo)
    } else if chars_eq(first, "Anfield") {
        match read_header_count(&cs) {
            Some(n) => Ok(Message::GridHeader(n)),
            None => Err(InputError::BadHeader),
        }
    } else if chars_eq(first, "Piece") {
        match read_header_count(&cs) {
            Some(n) => Ok(Message::PieceHeader(n)),
            None => Err(InputError::BadHeader),
        }
    } else {
        Ok(Message::Other)
    }
}

} // verus!
