use vstd::prelude::*;
use crate::chars::{is_ws_char, is_whitespace_char, push_char, to_char_vec};
use crate::mapping::Mapping;

verus! {

/// Why a parse failed.
#[derive(Clone, Copy, Debug, PartialEq, Eq, Structural)]
pub enum ParseError {
    /// A key segment was not terminated by `:` before the input ended.
    InvalidKey,
    /// A value segment was missing its opening quote, missing its closing
    /// quote, held an unsupported escape, or the input ended mid-escape.
    InvalidValue,
}

/// The input with its leading whitespace removed.
pub open spec fn drop_ws(s: Seq<char>) -> Seq<char>
    decreases s.len(),
{
    if s.len() == 0 {
        s
    } else if is_ws_char(s[0]) {
        drop_ws(s.drop_first())
    } else {
        s
    }
}

/// Reads a key: every character up to the first `:`, which is consumed and
/// not part of the key.  `None` when the input holds no `:` at all.
pub open spec fn scan_key(s: Seq<char>) -> Option<(Seq<char>, Seq<char>)>
    decreases s.len(),
{
    if s.len() == 0 {
        None
    } else if s[0] == ':' {
        Some((Seq::<char>::empty(), s.drop_first()))
    } else {
        match scan_key(s.drop_first()) {
            Some((k, r)) => Some((seq![s[0]] + k, r)),
            None => None,
        }
    }
}

/// Reads the body of a quoted value, starting just after the opening `"`:
/// characters up to the first unescaped `"`, with `\"` decoded to a literal
/// `"`.  `None` when the closing quote is missing, a `\` is followed by
/// anything but `"`, or the input ends mid-escape.
pub open spec fn scan_quoted(s: Seq<char>) -> Option<(Seq<char>, Seq<char>)>
    decreases s.len(),
{
    if s.len() == 0 {
        None
    } else if s[0] == '"' {
        Some((Seq::<char>::empty(), s.drop_first()))
    } else if s[0] == '\\' {
        if s.len() >= 2 && s[1] == '"' {
            match scan_quoted(s.drop_first().drop_first()) {
                Some((v, r)) => Some((seq!['"'] + v, r)),
                None => None,
            }
        } else {
            None
        }
    } else {
        match scan_quoted(s.drop_first()) {
            Some((v, r)) => Some((seq![s[0]] + v, r)),
            None => None,
        }
    }
}

/// Reads a value: optional whitespace, an opening `"`, then a quoted body.
pub open spec fn scan_value(s: Seq<char>) -> Option<(Seq<char>, Seq<char>)> {
    let t = drop_ws(s);
    if t.len() > 0 && t[0] == '"' {
        scan_quoted(t.drop_first())
    } else {
        None
    }
}

/// One pass over the whole input: whitespace-separated `key:"value"` pairs
/// accumulated into `m`, a later pair with the same key overwriting the
/// earlier one.  The first malformed pair aborts the parse.
pub open spec fn scan_pairs(s: Seq<char>, m: Map<Seq<char>, Seq<char>>) -> Result<
    Map<Seq<char>, Seq<char>>,
    ParseError,
>
    decreases s.len(),
    via scan_pairs_decreases
{
    let t = drop_ws(s);
    if t.len() == 0 {
        Ok(m)
    } else {
        match scan_key(t) {
            None => Err(ParseError::InvalidKey),
            Some((k, r1)) => match scan_value(r1) {
                None => Err(ParseError::InvalidValue),
                Some((v, r2)) => scan_pairs(r2, m.insert(k, v)),
            },
        }
    }
}

#[via_fn]
proof fn scan_pairs_decreases(s: Seq<char>, m: Map<Seq<char>, Seq<char>>) {
    lemma_drop_ws_len(s);
    let t = drop_ws(s);
    if t.len() > 0 {
        if let Some((k, r1)) = scan_key(t) {
            lemma_scan_key_len(t);
            if let Some((v, r2)) = scan_value(r1) {
                lemma_scan_value_len(r1);
            }
        }
    }
}

/// A position in an in-memory buffer of characters: the scanner's cursor.
pub struct Cursor {
    pub text: Vec<char>,
    pub pos: usize,
}

impl Cursor {
    /// The cursor points at a character of the buffer or just past its end.
    pub open spec fn wf(self) -> bool {
        self.pos <= self.text@.len()
    }

    /// The characters not yet consumed.
    pub open spec fn rest(self) -> Seq<char> {
        self.text@.subrange(self.pos as int, self.text@.len() as int)
    }

    /// A cursor at the start of `text`.
    pub fn new(text: Vec<char>) -> (c: Cursor)
        ensures
            c.wf(),
            c.rest() == text@,
            c.text@ == text@,
    {
        let c = Cursor { text, pos: 0 };
        proof {
            assert(c.rest() =~= c.text@);
        }
        c
    }
}

/// Consumes every whitespace character under the cursor.
pub fn skip_leading_whitespace(cur: &mut Cursor)
    requires
        old(cur).wf(),
    ensures
        final(cur).wf(),
        final(cur).text@ == old(cur).text@,
        final(cur).rest() == drop_ws(old(cur).rest()),
        final(cur).pos >= old(cur).pos,
{
    let ghost rest0 = old(cur).rest();
    loop
        invariant
            cur.wf(),
            cur.text@ == old(cur).text@,
            cur.pos >= old(cur).pos,
            drop_ws(cur.rest()) == drop_ws(rest0),
        ensures
            cur.wf(),
            cur.text@ == old(cur).text@,
            cur.pos >= old(cur).pos,
            drop_ws(cur.rest()) == drop_ws(rest0),
            cur.rest().len() == 0 || !is_ws_char(cur.rest()[0]),
        decreases cur.text@.len() - cur.pos,
    {
        if cur.pos == cur.text.len() {
            proof {
                assert(cur.rest() =~= Seq::<char>::empty());
            }
            break ;
        }
        let c = cur.text[cur.pos];
        proof {
            assert(cur.rest()[0] == c);
        }
        if !is_whitespace_char(c) {
            break ;
        }
        proof {
            assert(cur.rest().drop_first() =~= cur.text@.subrange(
                cur.pos + 1,
                cur.text@.len() as int,
            ));
        }
        cur.pos = cur.pos + 1;
    }
}

/// Parses one key, any whitespace before it skipped: the characters up to
/// the first `:`, which is consumed.  Fails with `InvalidKey` when the rest
/// of the input holds no `:`.
pub fn parse_key(cur: &mut Cursor) -> (r: Result<String, ParseError>)
    requires
        old(cur).wf(),
    ensures
        final(cur).wf(),
        final(cur).text@ == old(cur).text@,
        final(cur).pos >= old(cur).pos,
        match scan_key(drop_ws(old(cur).rest())) {
            Some((k, rest)) => r matches Ok(s) && s@ == k && final(cur).rest() == rest,
            None => r matches Err(e) && e == ParseError::InvalidKey,
        },
{
    skip_leading_whitespace(cur);
    let ghost t = cur.rest();
    let mut key = String::new();
    loop
        invariant
            cur.wf(),
            cur.text@ == old(cur).text@,
            cur.pos >= old(cur).pos,
            t == drop_ws(old(cur).rest()),
            scan_key(t) == match scan_key(cur.rest()) {
                Some((k, r)) => Some((key@ + k, r)),
                None => None::<(Seq<char>, Seq<char>)>,
            },
        decreases cur.text@.len() - cur.pos,
    {
        if cur.pos == cur.text.len() {
            proof {
                assert(cur.rest() =~= Seq::<char>::empty());
            }
            return Err(ParseError::InvalidKey);
        }
        let c = cur.text[cur.pos];
        let ghost prev = cur.rest();
        proof {
            assert(prev[0] == c);
            assert(prev.drop_first() =~= cur.text@.subrange(cur.pos + 1, cur.text@.len() as int));
        }
        cur.pos = cur.pos + 1;
        if c == ':' {
            proof {
                assert(key@ + Seq::<char>::empty() =~= key@);
            }
            return Ok(key);
        }
        push_char(&mut key, c);
        proof {
            if let Some((k, r)) = scan_key(cur.rest()) {
                assert(scan_key(prev) == Some((seq![c] + k, r)));
                assert(key@ + k =~= (key@.drop_last() + seq![c]) + k);
                assert(key@.drop_last() + (seq![c] + k) =~= (key@.drop_last() + seq![c]) + k);
            }
        }
    }
}

/// Parses one value, any whitespace before it skipped: an opening `"`, then
/// characters up to the closing unescaped `"`, the escape `\"` decoded to a
/// literal `"`.  Fails with `InvalidValue` when the opening quote is absent,
/// the closing quote is never found, or an escape is not `\"`.
pub fn parse_value(cur: &mut Cursor) -> (r: Result<String, ParseError>)
    requires
        old(cur).wf(),
    ensures
        final(cur).wf(),
        final(cur).text@ == old(cur).text@,
        final(cur).pos >= old(cur).pos,
        match scan_value(old(cur).rest()) {
            Some((v, rest)) => r matches Ok(s) && s@ == v && final(cur).rest() == rest,
            None => r matches Err(e) && e == ParseError::InvalidValue,
        },
{
    skip_leading_whitespace(cur);
    if cur.pos == cur.text.len() {
        proof {
            assert(cur.rest() =~= Seq::<char>::empty());
        }
        return Err(ParseError::InvalidValue);
    }
    let c0 = cur.text[cur.pos];
    proof {
        assert(cur.rest()[0] == c0);
    }
    if c0 != '"' {
        return Err(ParseError::InvalidValue);
    }
    proof {
        assert(cur.rest().drop_first() =~= cur.text@.subrange(
            cur.pos + 1,
            cur.text@.len() as int,
        ));
    }
    cur.pos = cur.pos + 1;
    let ghost t = cur.rest();
    let mut value = String::new();
    loop
        invariant
            cur.wf(),
            cur.text@ == old(cur).text@,
            cur.pos >= old(cur).pos,
            scan_value(old(cur).rest()) == scan_quoted(t),
            scan_quoted(t) == match scan_quoted(cur.rest()) {
                Some((v, r)) => Some((value@ + v, r)),
                None => None::<(Seq<char>, Seq<char>)>,
            },
        decreases cur.text@.len() - cur.pos,
    {
        if cur.pos == cur.text.len() {
            proof {
                assert(cur.rest() =~= Seq::<char>::empty());
            }
            return Err(ParseError::InvalidValue);
        }
        let c = cur.text[cur.pos];
        let ghost prev = cur.rest();
        proof {
            assert(prev[0] == c);
            assert(prev.drop_first() =~= cur.text@.subrange(cur.pos + 1, cur.text@.len() as int));
        }
        cur.pos = cur.pos + 1;
        if c == '"' {
            proof {
                assert(value@ + Seq::<char>::empty() =~= value@);
            }
            return Ok(value);
        }
        if c == '\\' {
            if cur.pos == cur.text.len() {
                proof {
                    assert(prev.len() < 2);
                }
                return Err(ParseError::InvalidValue);
            }
            let c2 = cur.text[cur.pos];
            let ghost prev2 = cur.rest();
            proof {
                assert(prev2 =~= prev.drop_first());
                assert(prev[1] == c2);
                assert(prev2.drop_first() =~= cur.text@.subrange(
                    cur.pos + 1,
                    cur.text@.len() as int,
                ));
            }
            if c2 != '"' {
                return Err(ParseError::InvalidValue);
            }
            cur.pos = cur.pos + 1;
            push_char(&mut value, c2);
            proof {
                if let Some((v, r)) = scan_quoted(cur.rest()) {
                    assert(scan_quoted(prev) == Some((seq!['"'] + v, r)));
                    assert(value@.drop_last() + (seq!['"'] + v) =~= value@ + v);
                }
            }
        } else {
            push_char(&mut value, c);
            proof {
                if let Some((v, r)) = scan_quoted(cur.rest()) {
                    assert(scan_quoted(prev) == Some((seq![c] + v, r)));
                    assert(value@.drop_last() + (seq![c] + v) =~= value@ + v);
                }
            }
        }
    }
}

/// Parses the whole input: whitespace-separated `key:"value"` pairs, a later
/// pair with the same key overwriting the earlier one.  The first malformed
/// pair aborts the parse with its error.
pub fn parse(input: &str) -> (r: Result<Mapping, ParseError>)
    ensures
        match r {
            Ok(m) => m.wf() && scan_pairs(input@, Map::<Seq<char>, Seq<char>>::empty())
                == Ok::<Map<Seq<char>, Seq<char>>, ParseError>(m@),
            Err(e) => scan_pairs(input@, Map::<Seq<char>, Seq<char>>::empty())
                == Err::<Map<Seq<char>, Seq<char>>, ParseError>(e),
        },
{
    let text = to_char_vec(input);
    let mut cur = Cursor::new(text);
    let mut m = Mapping::new();
    loop
        invariant
            cur.wf(),
            m.wf(),
            scan_pairs(input@, Map::<Seq<char>, Seq<char>>::empty()) == scan_pairs(
                cur.rest(),
                m@,
            ),
        decreases cur.text@.len() - cur.pos,
    {
        let ghost rest_top = cur.rest();
        skip_leading_whitespace(&mut cur);
        proof {
            lemma_drop_ws_len(rest_top);
            lemma_drop_ws_head(rest_top);
        }
        if cur.pos == cur.text.len() {
            proof {
                assert(cur.rest() =~= Seq::<char>::empty());
            }
            return Ok(m);
        }
        let ghost t = cur.rest();
        let key = match parse_key(&mut cur) {
            Ok(k) => k,
            Err(e) => { return Err(e) },
        };
        proof {
            lemma_scan_key_len(t);
        }
        let ghost r1 = cur.rest();
        let value = match parse_value(&mut cur) {
            Ok(v) => v,
            Err(e) => { return Err(e) },
        };
        proof {
            lemma_scan_value_len(r1);
        }
        m.insert(key, value);
    }
}

/// What is left after dropping leading whitespace is empty or starts with a
/// character that is not whitespace.
pub proof fn lemma_drop_ws_head(s: Seq<char>)
    ensures
        drop_ws(s).len() == 0 || !is_ws_char(drop_ws(s)[0]),
    decreases s.len(),
{
    if s.len() > 0 && is_ws_char(s[0]) {
        lemma_drop_ws_head(s.drop_first());
    }
}

/// Dropping leading whitespace never lengthens the input.
pub proof fn lemma_drop_ws_len(s: Seq<char>)
    ensures
        drop_ws(s).len() <= s.len(),
    decreases s.len(),
{
    if s.len() > 0 && is_ws_char(s[0]) {
        lemma_drop_ws_len(s.drop_first());
    }
}

/// A successful key scan consumes the key and its `:`.
pub proof fn lemma_scan_key_len(s: Seq<char>)
    ensures
        scan_key(s) matches Some((k, r)) ==> k.len() + 1 + r.len() == s.len(),
    decreases s.len(),
{
    if s.len() > 0 && s[0] != ':' {
        lemma_scan_key_len(s.drop_first());
    }
}

/// A successful quoted-body scan consumes at least the closing quote.
pub proof fn lemma_scan_quoted_len(s: Seq<char>)
    ensures
        scan_quoted(s) matches Some((v, r)) ==> r.len() < s.len(),
    decreases s.len(),
{
    if s.len() > 0 && s[0] != '"' {
        if s[0] == '\\' {
            if s.len() >= 2 && s[1] == '"' {
                lemma_scan_quoted_len(s.drop_first().drop_first());
            }
        } else {
            lemma_scan_quoted_len(s.drop_first());
        }
    }
}

/// A successful value scan consumes at least the two quotes.
pub proof fn lemma_scan_value_len(s: Seq<char>)
    ensures
        scan_value(s) matches Some((v, r)) ==> r.len() < s.len(),
{
    lemma_drop_ws_len(s);
    let t = drop_ws(s);
    if t.len() > 0 && t[0] == '"' {
        lemma_scan_quoted_len(t.drop_first());
    }
}

} // verus!
