use vstd::prelude::*;
use vstd::string::{StrSliceExecFns, StringExecFns};
use crate::chars::{is_ws_char, push_char};
use crate::mapping::{Mapping, Pair, pairs_to_map};
use crate::scanner::{ParseError, drop_ws, scan_key, scan_pairs, scan_quoted, scan_value};

verus! {

/// How one character of a value is written inside its quotes: `"` is escaped
/// as `\"`, every other character stands as itself.
pub open spec fn enc_char(c: char) -> Seq<char> {
    if c == '"' {
        seq!['\\', '"']
    } else {
        seq![c]
    }
}

/// A value as it is written between its quotes.
pub open spec fn escape_value(v: Seq<char>) -> Seq<char>
    decreases v.len(),
{
    if v.len() == 0 {
        Seq::<char>::empty()
    } else {
        enc_char(v[0]) + escape_value(v.drop_first())
    }
}

/// One entry as it is written out: the key, a `:`, then the quoted value.
pub open spec fn render_pair(p: Pair) -> Seq<char> {
    p.key@ + seq![':', '"'] + escape_value(p.value@) + seq!['"']
}

/// A whole mapping as it is written out: each entry followed by one space.
pub open spec fn render_pairs(ps: Seq<Pair>) -> Seq<char>
    decreases ps.len(),
{
    if ps.len() == 0 {
        Seq::<char>::empty()
    } else {
        render_pair(ps[0]) + seq![' '] + render_pairs(ps.drop_first())
    }
}

/// An entry the scanner can read back from its rendered form: the key holds
/// no `:` and does not begin with whitespace, and the value holds no `\`.
pub open spec fn renderable_pair(p: Pair) -> bool {
    &&& forall|i: int| 0 <= i < p.key@.len() ==> p.key@[i] != ':'
    &&& (p.key@.len() > 0 ==> !is_ws_char(p.key@[0]))
    &&& forall|i: int| 0 <= i < p.value@.len() ==> p.value@[i] != '\\'
}

/// Every entry of the sequence can be read back.
pub open spec fn renderable(ps: Seq<Pair>) -> bool {
    forall|i: int| 0 <= i < ps.len() ==> renderable_pair(ps[i])
}

/// The entries inserted into `m` from left to right.
pub open spec fn insert_all(m: Map<Seq<char>, Seq<char>>, ps: Seq<Pair>) -> Map<
    Seq<char>,
    Seq<char>,
>
    decreases ps.len(),
{
    if ps.len() == 0 {
        m
    } else {
        insert_all(m.insert(ps[0].key@, ps[0].value@), ps.drop_first())
    }
}

/// Escaping one more character appends its encoding.
proof fn lemma_escape_push(v: Seq<char>, c: char)
    ensures
        escape_value(v.push(c)) == escape_value(v) + enc_char(c),
    decreases v.len(),
{
    if v.len() == 0 {
        assert(v.push(c)[0] == c);
        assert(v.push(c).drop_first() =~= Seq::<char>::empty());
        assert(escape_value(v.push(c)) == enc_char(c) + escape_value(Seq::<char>::empty()));
        assert(escape_value(v.push(c)) =~= escape_value(v) + enc_char(c));
    } else {
        assert(v.push(c)[0] == v[0]);
        assert(v.push(c).drop_first() =~= v.drop_first().push(c));
        lemma_escape_push(v.drop_first(), c);
        assert(escape_value(v.push(c)) == enc_char(v[0]) + (escape_value(v.drop_first())
            + enc_char(c)));
        assert(escape_value(v) == enc_char(v[0]) + escape_value(v.drop_first()));
        assert(escape_value(v.push(c)) =~= escape_value(v) + enc_char(c));
    }
}

/// Rendering one more entry appends its rendered form and a space.
proof fn lemma_render_pairs_push(ps: Seq<Pair>, p: Pair)
    ensures
        render_pairs(ps.push(p)) == render_pairs(ps) + render_pair(p) + seq![' '],
    decreases ps.len(),
{
    if ps.len() == 0 {
        assert(ps.push(p)[0] == p);
        assert(ps.push(p).drop_first() =~= Seq::<Pair>::empty());
        assert(render_pairs(ps.push(p)) == render_pair(p) + seq![' '] + render_pairs(
            Seq::<Pair>::empty(),
        ));
        assert(render_pairs(ps.push(p)) =~= render_pairs(ps) + render_pair(p) + seq![' ']);
    } else {
        assert(ps.push(p)[0] == ps[0]);
        assert(ps.push(p).drop_first() =~= ps.drop_first().push(p));
        lemma_render_pairs_push(ps.drop_first(), p);
        assert(render_pairs(ps.push(p)) == render_pair(ps[0]) + seq![' '] + (render_pairs(
            ps.drop_first(),
        ) + render_pair(p) + seq![' ']));
        assert(render_pairs(ps) == render_pair(ps[0]) + seq![' '] + render_pairs(ps.drop_first()));
        assert(render_pairs(ps.push(p)) =~= render_pairs(ps) + render_pair(p) + seq![' ']);
    }
}

/// The scanner reads a rendered key back: the key's characters hold no `:`,
/// so the first `:` is the one the renderer wrote after the key.
proof fn lemma_scan_key_render(k: Seq<char>, tail: Seq<char>)
    requires
        forall|i: int| 0 <= i < k.len() ==> k[i] != ':',
    ensures
        scan_key(k + seq![':'] + tail) == Some((k, tail)),
    decreases k.len(),
{
    let s = k + seq![':'] + tail;
    if k.len() == 0 {
        assert(s[0] == ':');
        assert(s.drop_first() =~= tail);
        assert(Seq::<char>::empty() =~= k);
    } else {
        assert(s[0] == k[0]);
        assert(s.drop_first() =~= k.drop_first() + seq![':'] + tail);
        assert(forall|i: int| 0 <= i < k.drop_first().len() ==> k.drop_first()[i] != ':');
        lemma_scan_key_render(k.drop_first(), tail);
        assert(scan_key(s) == Some((seq![k[0]] + k.drop_first(), tail)));
        assert(seq![k[0]] + k.drop_first() =~= k);
    }
}

/// The scanner reads a rendered value body back: with no `\` in the value,
/// every `\` of the rendering is one the renderer wrote before a `"`, and
/// the closing quote is the first unescaped one.
proof fn lemma_scan_quoted_render(v: Seq<char>, tail: Seq<char>)
    requires
        forall|i: int| 0 <= i < v.len() ==> v[i] != '\\',
    ensures
        scan_quoted(escape_value(v) + seq!['"'] + tail) == Some((v, tail)),
    decreases v.len(),
{
    let s = escape_value(v) + seq!['"'] + tail;
    if v.len() == 0 {
        assert(s =~= seq!['"'] + tail);
        assert(s[0] == '"');
        assert(s.drop_first() =~= tail);
        assert(Seq::<char>::empty() =~= v);
    } else {
        let vt = v.drop_first();
        assert(forall|i: int| 0 <= i < vt.len() ==> vt[i] != '\\');
        lemma_scan_quoted_render(vt, tail);
        if v[0] == '"' {
            assert(escape_value(v) == seq!['\\', '"'] + escape_value(vt));
            assert(s[0] == '\\');
            assert(s.len() >= 2 && s[1] == '"');
            assert(s.drop_first().drop_first() =~= escape_value(vt) + seq!['"'] + tail);
            assert(scan_quoted(s) == Some((seq!['"'] + vt, tail)));
            assert(seq!['"'] + vt =~= v);
        } else {
            assert(escape_value(v) == seq![v[0]] + escape_value(vt));
            assert(s[0] == v[0]);
            assert(s[0] != '"' && s[0] != '\\');
            assert(s.drop_first() =~= escape_value(vt) + seq!['"'] + tail);
            assert(scan_quoted(s) == Some((seq![v[0]] + vt, tail)));
            assert(seq![v[0]] + vt =~= v);
        }
    }
}

/// Leading whitespace does not change what a scan of the remaining pairs
/// yields.
proof fn lemma_scan_pairs_ws_eq(s1: Seq<char>, s2: Seq<char>, m: Map<Seq<char>, Seq<char>>)
    requires
        drop_ws(s1) == drop_ws(s2),
    ensures
        scan_pairs(s1, m) == scan_pairs(s2, m),
{
}

/// The scanner reads a rendered sequence of entries back, inserting each in
/// order into the accumulator.
proof fn lemma_scan_pairs_render(ps: Seq<Pair>, m: Map<Seq<char>, Seq<char>>)
    requires
        renderable(ps),
    ensures
        scan_pairs(render_pairs(ps), m) == Ok::<Map<Seq<char>, Seq<char>>, ParseError>(
            insert_all(m, ps),
        ),
    decreases ps.len(),
{
    if ps.len() == 0 {
        assert(drop_ws(render_pairs(ps)) == render_pairs(ps));
    } else {
        let p = ps[0];
        assert(renderable_pair(p));
        let k = p.key@;
        let v = p.value@;
        let rest = render_pairs(ps.drop_first());
        let s = render_pairs(ps);
        let tail1 = seq!['"'] + escape_value(v) + seq!['"'] + seq![' '] + rest;
        let tail2 = seq![' '] + rest;
        assert(s =~= k + seq![':'] + tail1);
        if k.len() == 0 {
            assert(s[0] == ':');
        } else {
            assert(s[0] == k[0]);
        }
        assert(!is_ws_char(s[0]));
        assert(drop_ws(s) == s);
        lemma_scan_key_render(k, tail1);
        assert(scan_key(s) == Some((k, tail1)));
        assert(tail1[0] == '"');
        assert(drop_ws(tail1) == tail1);
        assert(tail1.drop_first() =~= escape_value(v) + seq!['"'] + tail2);
        lemma_scan_quoted_render(v, tail2);
        assert(scan_value(tail1) == Some((v, tail2)));
        assert(renderable(ps.drop_first()));
        lemma_scan_pairs_render(ps.drop_first(), m.insert(k, v));
        assert(is_ws_char(' '));
        assert(tail2.drop_first() =~= rest);
        assert(drop_ws(tail2) == drop_ws(rest));
        lemma_scan_pairs_ws_eq(tail2, rest, m.insert(k, v));
        assert(scan_pairs(s, m) == scan_pairs(tail2, m.insert(k, v)));
        assert(insert_all(m, ps) == insert_all(m.insert(k, v), ps.drop_first()));
    }
}

/// Only whitespace characters.
pub open spec fn all_ws(s: Seq<char>) -> bool {
    forall|i: int| 0 <= i < s.len() ==> is_ws_char(s[i])
}

/// A well-formed input: the entries written in order, each preceded by one
/// stretch of whitespace, with one more stretch at the end.
pub open spec fn interleave(seps: Seq<Seq<char>>, ps: Seq<Pair>) -> Seq<char>
    decreases ps.len(),
{
    let w = if seps.len() > 0 {
        seps[0]
    } else {
        Seq::<char>::empty()
    };
    if ps.len() == 0 {
        w
    } else {
        w + render_pair(ps[0]) + interleave(seps.drop_first(), ps.drop_first())
    }
}

/// Dropping whitespace passes over an all-whitespace prefix.
proof fn lemma_drop_ws_concat(w: Seq<char>, s: Seq<char>)
    requires
        all_ws(w),
    ensures
        drop_ws(w + s) == drop_ws(s),
    decreases w.len(),
{
    if w.len() == 0 {
        assert(w + s =~= s);
    } else {
        assert((w + s)[0] == w[0]);
        assert((w + s).drop_first() =~= w.drop_first() + s);
        assert(all_ws(w.drop_first()));
        lemma_drop_ws_concat(w.drop_first(), s);
    }
}

/// Every well-formed input parses: entries whose keys hold no `:` and do
/// not begin with whitespace and whose values hold no `\`, written in order
/// with arbitrary whitespace around them, scan to the mapping that holds
/// the last-seen value for each distinct key.
pub proof fn lemma_well_formed_input_parses(
    seps: Seq<Seq<char>>,
    ps: Seq<Pair>,
    m: Map<Seq<char>, Seq<char>>,
)
    requires
        renderable(ps),
        seps.len() == ps.len() + 1,
        forall|i: int| 0 <= i < seps.len() ==> all_ws(#[trigger] seps[i]),
    ensures
        scan_pairs(interleave(seps, ps), m) == Ok::<Map<Seq<char>, Seq<char>>, ParseError>(
            insert_all(m, ps),
        ),
    decreases ps.len(),
{
    if ps.len() == 0 {
        assert(interleave(seps, ps) == seps[0]);
        lemma_drop_ws_concat(seps[0], Seq::<char>::empty());
        assert(seps[0] + Seq::<char>::empty() =~= seps[0]);
    } else {
        let w = seps[0];
        let p = ps[0];
        assert(renderable_pair(p));
        let k = p.key@;
        let v = p.value@;
        let rest = interleave(seps.drop_first(), ps.drop_first());
        let s = interleave(seps, ps);
        let body = render_pair(p) + rest;
        assert(s =~= w + body);
        lemma_drop_ws_concat(w, body);
        lemma_scan_pairs_ws_eq(s, body, m);
        let tail1 = seq!['"'] + escape_value(v) + seq!['"'] + rest;
        assert(body =~= k + seq![':'] + tail1);
        if k.len() == 0 {
            assert(body[0] == ':');
        } else {
            assert(body[0] == k[0]);
        }
        assert(!is_ws_char(body[0]));
        assert(drop_ws(body) == body);
        lemma_scan_key_render(k, tail1);
        assert(scan_key(body) == Some((k, tail1)));
        assert(tail1[0] == '"');
        assert(drop_ws(tail1) == tail1);
        assert(tail1.drop_first() =~= escape_value(v) + seq!['"'] + rest);
        lemma_scan_quoted_render(v, rest);
        assert(scan_value(tail1) == Some((v, rest)));
        assert(renderable(ps.drop_first()));
        assert(forall|i: int|
            0 <= i < seps.drop_first().len() ==> all_ws(#[trigger] seps.drop_first()[i]));
        lemma_well_formed_input_parses(seps.drop_first(), ps.drop_first(), m.insert(k, v));
        assert(insert_all(m, ps) == insert_all(m.insert(k, v), ps.drop_first()));
    }
}

/// Inserting one more entry on the right inserts its key last.
proof fn lemma_insert_all_push(m: Map<Seq<char>, Seq<char>>, ps: Seq<Pair>, p: Pair)
    ensures
        insert_all(m, ps.push(p)) == insert_all(m, ps).insert(p.key@, p.value@),
    decreases ps.len(),
{
    if ps.len() == 0 {
        assert(ps.push(p)[0] == p);
        assert(ps.push(p).drop_first() =~= Seq::<Pair>::empty());
        assert(insert_all(m, ps.push(p)) == insert_all(
            m.insert(p.key@, p.value@),
            ps.push(p).drop_first(),
        ));
        assert(insert_all(m.insert(p.key@, p.value@), ps.push(p).drop_first()) == m.insert(
            p.key@,
            p.value@,
        ));
        assert(insert_all(m, ps) == m);
    } else {
        assert(ps.push(p)[0] == ps[0]);
        assert(ps.push(p).drop_first() =~= ps.drop_first().push(p));
        let m1 = m.insert(ps[0].key@, ps[0].value@);
        assert(insert_all(m, ps.push(p)) == insert_all(m1, ps.drop_first().push(p)));
        lemma_insert_all_push(m1, ps.drop_first(), p);
        assert(insert_all(m, ps) == insert_all(m1, ps.drop_first()));
    }
}

/// The two readings of a sequence of entries agree: folding the entries from
/// the left into an empty map equals the mapping's own content.
proof fn lemma_pairs_to_map_is_insert_all(ps: Seq<Pair>)
    ensures
        pairs_to_map(ps) == insert_all(Map::<Seq<char>, Seq<char>>::empty(), ps),
    decreases ps.len(),
{
    if ps.len() > 0 {
        lemma_pairs_to_map_is_insert_all(ps.drop_last());
        lemma_insert_all_push(Map::<Seq<char>, Seq<char>>::empty(), ps.drop_last(), ps.last());
        assert(ps.drop_last().push(ps.last()) =~= ps);
    }
}

/// Round trip: scanning the rendered form of a mapping yields an equal
/// mapping, for every mapping whose keys hold no `:` and do not begin with
/// whitespace and whose values hold no `\`.
pub proof fn lemma_render_parse_round_trip(m: Mapping)
    requires
        renderable(m.pairs@),
    ensures
        scan_pairs(render_pairs(m.pairs@), Map::<Seq<char>, Seq<char>>::empty()) == Ok::<
            Map<Seq<char>, Seq<char>>,
            ParseError,
        >(m@),
{
    lemma_scan_pairs_render(m.pairs@, Map::<Seq<char>, Seq<char>>::empty());
    lemma_pairs_to_map_is_insert_all(m.pairs@);
}

/// Appends a value as it stands between its quotes, escaping `"` as `\"`.
fn append_escaped(out: &mut String, v: &String)
    ensures
        final(out)@ == old(out)@ + escape_value(v@),
{
    let n = v.as_str().unicode_len();
    let mut i: usize = 0;
    proof {
        assert(old(out)@ + escape_value(v@.subrange(0, 0)) =~= old(out)@);
    }
    while i < n
        invariant
            n == v@.len(),
            i <= n,
            out@ == old(out)@ + escape_value(v@.subrange(0, i as int)),
        decreases n - i,
    {
        let c = v.as_str().get_char(i);
        if c == '"' {
            push_char(out, '\\');
            push_char(out, '"');
        } else {
            push_char(out, c);
        }
        proof {
            lemma_escape_push(v@.subrange(0, i as int), c);
            assert(v@.subrange(0, i + 1) =~= v@.subrange(0, i as int).push(c));
            assert(old(out)@ + (escape_value(v@.subrange(0, i as int)) + enc_char(c)) =~= (old(
                out,
            )@ + escape_value(v@.subrange(0, i as int))) + enc_char(c));
            assert(out@ =~= old(out)@ + escape_value(v@.subrange(0, i + 1)));
        }
        i = i + 1;
    }
    proof {
        assert(v@.subrange(0, n as int) =~= v@);
    }
}

impl Mapping {
    /// Writes the mapping back out in the scanner's format, one
    /// `key:"value"` pair per entry, each followed by a space, with `"`
    /// inside a value escaped as `\"`.
    pub fn render(&self) -> (out: String)
        ensures
            out@ == render_pairs(self.pairs@),
    {
        let mut out = String::new();
        let n = self.len();
        let mut i: usize = 0;
        while i < n
            invariant
                n == self.pairs@.len(),
                i <= n,
                out@ == render_pairs(self.pairs@.subrange(0, i as int)),
            decreases n - i,
        {
            let ghost done = self.pairs@.subrange(0, i as int);
            let ghost out0 = out@;
            let key = self.key_at(i);
            let value = self.value_at(i);
            out.append(key.as_str());
            push_char(&mut out, ':');
            push_char(&mut out, '"');
            append_escaped(&mut out, &value);
            push_char(&mut out, '"');
            push_char(&mut out, ' ');
            proof {
                lemma_render_pairs_push(done, self.pairs@[i as int]);
                assert(self.pairs@.subrange(0, i + 1) =~= done.push(self.pairs@[i as int]));
                assert(out@ =~= out0 + render_pair(self.pairs@[i as int]) + seq![' ']);
                assert(out0 + render_pair(self.pairs@[i as int]) + seq![' '] =~= render_pairs(
                    self.pairs@.subrange(0, i + 1),
                ));
            }
            i = i + 1;
        }
        proof {
            assert(self.pairs@.subrange(0, n as int) =~= self.pairs@);
        }
        out
    }
}

} // verus!
