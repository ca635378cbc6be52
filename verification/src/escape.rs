//! Escaping of text for inclusion in HTML.

use vstd::prelude::*;
use vstd::string::*;
use crate::text::str_chars;

verus! {

/// The replacement text of one character: the five HTML-special
/// characters become entity references, every other character stands for itself.
pub open spec fn escape_char(c: char) -> Seq<char> {
    if c == '&' {
        seq!['&', 'a', 'm', 'p', ';']
    } else if c == '<' {
        seq!['&', 'l', 't', ';']
    } else if c == '>' {
        seq!['&', 'g', 't', ';']
    } else if c == '"' {
        seq!['&', 'q', 'u', 'o', 't', ';']
    } else if c == '\'' {
        seq!['&', 'a', 'p', 'o', 's', ';']
    } else {
        seq![c]
    }
}

/// The text that character `c` becomes when `prev` is the character before it
/// (`None` at the start of the text). A `>` that directly follows a `"` is
/// dropped, so a tag that ends in a quoted attribute, such as
/// `<div class="test">`, becomes `&lt;div class=&quot;test&quot;`; every other
/// character becomes its `escape_char` text.
pub open spec fn escape_piece(prev: Option<char>, c: char) -> Seq<char> {
    if c == '>' && prev == Some('"') {
        Seq::empty()
    } else {
        escape_char(c)
    }
}

/// The escape text of `s`, where `prev` is the character that precedes `s`.
pub open spec fn escaped_after(prev: Option<char>, s: Seq<char>) -> Seq<char>
    decreases s.len(),
{
    if s.len() == 0 {
        Seq::empty()
    } else {
        escape_piece(prev, s[0]) + escaped_after(Some(s[0]), s.drop_first())
    }
}

/// The escape text of a whole text `s`.
pub open spec fn escaped(s: Seq<char>) -> Seq<char> {
    escaped_after(None, s)
}

/// The character before `b` when `b` follows `a`, which itself follows `prev`.
pub open spec fn last_before(prev: Option<char>, a: Seq<char>) -> Option<char> {
    if a.len() == 0 {
        prev
    } else {
        Some(a.last())
    }
}

/// Whether `c` is one of the characters that escaping rewrites.
pub open spec fn is_special(c: char) -> bool {
    c == '&' || c == '<' || c == '>' || c == '"' || c == '\''
}

/// Escaping distributes over concatenation: the second part is escaped
/// knowing the character that ends the first.
pub proof fn lemma_escaped_concat(prev: Option<char>, a: Seq<char>, b: Seq<char>)
    ensures
        escaped_after(prev, a + b) == escaped_after(prev, a) + escaped_after(last_before(prev, a), b),
    decreases a.len(),
{
    if a.len() == 0 {
        assert(a + b =~= b);
        assert(escaped_after(prev, a) =~= Seq::<char>::empty());
        assert(escaped_after(prev, a) + escaped_after(prev, b) =~= escaped_after(prev, b));
    } else {
        assert((a + b).drop_first() =~= a.drop_first() + b);
        assert((a + b)[0] == a[0]);
        lemma_escaped_concat(Some(a[0]), a.drop_first(), b);
        if a.len() > 1 {
            assert(a.drop_first().last() == a.last());
        }
        assert(last_before(Some(a[0]), a.drop_first()) == last_before(prev, a));
        assert(escaped_after(prev, a + b) =~= escape_piece(prev, a[0]) + (escaped_after(
            Some(a[0]),
            a.drop_first(),
        ) + escaped_after(last_before(prev, a), b)));
    }
}

/// Escaping a prefix one character longer appends that character's text.
pub proof fn lemma_escaped_take_step(s: Seq<char>, i: int)
    requires
        0 <= i < s.len(),
    ensures
        escaped(s.take(i + 1)) == escaped(s.take(i)) + escape_piece(
            if i == 0 { None } else { Some(s[i - 1]) },
            s[i],
        ),
{
    let one = seq![s[i]];
    assert(s.take(i + 1) =~= s.take(i) + one);
    lemma_escaped_concat(None, s.take(i), one);
    if i > 0 {
        assert(s.take(i).last() == s[i - 1]);
    }
    let p = last_before(None, s.take(i));
    assert(one.drop_first() =~= Seq::<char>::empty());
    assert(escaped_after(Some(s[i]), one.drop_first()) =~= Seq::<char>::empty());
    assert(escaped_after(p, one) =~= escape_piece(p, s[i]));
}

/// Whether `t` holds none of the characters that HTML reads as markup or as
/// attribute delimiters: `<`, `>`, `"` and `'`.
pub open spec fn free_of_markup(t: Seq<char>) -> bool {
    forall|k: int| 0 <= k < t.len() ==> !(t[k] == '<' || t[k] == '>' || t[k] == '"' || t[k] == '\'')
}

/// Whether every `&` in `t` opens one of the five entity references that
/// escaping produces.
pub open spec fn ampersands_are_entities(t: Seq<char>) -> bool {
    forall|k: int|
        0 <= k < t.len() && t[k] == '&' ==> {
            ||| t.subrange(k, t.len() as int).take(5) == seq!['&', 'a', 'm', 'p', ';']
            ||| t.subrange(k, t.len() as int).take(4) == seq!['&', 'l', 't', ';']
            ||| t.subrange(k, t.len() as int).take(4) == seq!['&', 'g', 't', ';']
            ||| t.subrange(k, t.len() as int).take(6) == seq!['&', 'q', 'u', 'o', 't', ';']
            ||| t.subrange(k, t.len() as int).take(6) == seq!['&', 'a', 'p', 'o', 's', ';']
        }
}

/// What escaping one more character adds at the end: a `>` right after a
/// `"` adds nothing, any other `>` adds `&gt;`, `&` adds `&amp;`, `<` adds
/// `&lt;`, `"` adds `&quot;`, `'` adds `&apos;`, and every other character
/// adds itself. Together with `escaped` of the empty text being empty, this
/// fixes the escape of every text.
pub proof fn lemma_escaped_push(a: Seq<char>, c: char)
    ensures
        escaped(Seq::<char>::empty()) == Seq::<char>::empty(),
        c == '>' && a.len() > 0 && a.last() == '"' ==> escaped(a.push(c)) == escaped(a),
        c == '>' && !(a.len() > 0 && a.last() == '"') ==> escaped(a.push(c)) == escaped(a) + seq![
            '&',
            'g',
            't',
            ';',
        ],
        c == '&' ==> escaped(a.push(c)) == escaped(a) + seq!['&', 'a', 'm', 'p', ';'],
        c == '<' ==> escaped(a.push(c)) == escaped(a) + seq!['&', 'l', 't', ';'],
        c == '"' ==> escaped(a.push(c)) == escaped(a) + seq!['&', 'q', 'u', 'o', 't', ';'],
        c == '\'' ==> escaped(a.push(c)) == escaped(a) + seq!['&', 'a', 'p', 'o', 's', ';'],
        !(c == '&' || c == '<' || c == '>' || c == '"' || c == '\'') ==> escaped(a.push(c)) == escaped(a).push(c),
{
    let one = seq![c];
    assert(a.push(c) =~= a + one);
    lemma_escaped_concat(None, a, one);
    let p = last_before(None, a);
    assert(one.drop_first() =~= Seq::<char>::empty());
    assert(escaped_after(Some(c), one.drop_first()) =~= Seq::<char>::empty());
    assert(escaped_after(p, one) =~= escape_piece(p, c));
    assert(escaped(a).push(c) =~= escaped(a) + seq![c]);
    assert(escaped(a) + Seq::<char>::empty() =~= escaped(a));
}

/// Escaped text is safe to place between tags or inside a quoted attribute:
/// it holds no `<`, `>`, `"` or `'`, and each of its `&` starts an entity reference.
pub proof fn lemma_escaped_is_inert(prev: Option<char>, s: Seq<char>)
    ensures
        free_of_markup(escaped_after(prev, s)),
        ampersands_are_entities(escaped_after(prev, s)),
    decreases s.len(),
{
    if s.len() > 0 {
        lemma_escaped_is_inert(Some(s[0]), s.drop_first());
        let head = escape_piece(prev, s[0]);
        let tail = escaped_after(Some(s[0]), s.drop_first());
        let t = head + tail;
        assert(escaped_after(prev, s) == t);
        assert forall|k: int| 0 <= k < t.len() implies !(t[k] == '<' || t[k] == '>' || t[k] == '"'
            || t[k] == '\'') by {
            if k >= head.len() {
                assert(t[k] == tail[k - head.len()]);
            }
        }
        assert forall|k: int| 0 <= k < t.len() && t[k] == '&' implies {
            ||| t.subrange(k, t.len() as int).take(5) == seq!['&', 'a', 'm', 'p', ';']
            ||| t.subrange(k, t.len() as int).take(4) == seq!['&', 'l', 't', ';']
            ||| t.subrange(k, t.len() as int).take(4) == seq!['&', 'g', 't', ';']
            ||| t.subrange(k, t.len() as int).take(6) == seq!['&', 'q', 'u', 'o', 't', ';']
            ||| t.subrange(k, t.len() as int).take(6) == seq!['&', 'a', 'p', 'o', 's', ';']
        } by {
            if k >= head.len() {
                let j = k - head.len();
                assert(t[k] == tail[j]);
                assert(t.subrange(k, t.len() as int) =~= tail.subrange(j, tail.len() as int));
            } else {
                assert(k == 0);
                let r = t.subrange(0, t.len() as int);
                assert(r =~= t);
                if s[0] == '&' {
                    assert(r.take(5) =~= head);
                } else if s[0] == '<' {
                    assert(r.take(4) =~= head);
                } else if s[0] == '>' {
                    assert(r.take(4) =~= head);
                } else if s[0] == '"' {
                    assert(r.take(6) =~= head);
                } else {
                    assert(r.take(6) =~= head);
                }
            }
        }
    }
}

/// Text without any of the five special characters is left as it is.
pub proof fn lemma_escaped_plain(prev: Option<char>, s: Seq<char>)
    requires
        forall|k: int| 0 <= k < s.len() ==> !is_special(#[trigger] s[k]),
    ensures
        escaped_after(prev, s) == s,
    decreases s.len(),
{
    if s.len() > 0 {
        assert(!is_special(s[0]));
        assert forall|k: int| 0 <= k < s.drop_first().len() implies !is_special(
            #[trigger] s.drop_first()[k],
        ) by {
            assert(s.drop_first()[k] == s[k + 1]);
        }
        lemma_escaped_plain(Some(s[0]), s.drop_first());
        assert(escaped_after(prev, s) =~= seq![s[0]] + s.drop_first());
        assert(seq![s[0]] + s.drop_first() =~= s);
    } else {
        assert(escaped_after(prev, s) =~= s);
    }
}

/// Appends `escaped(line)` to `out`.
pub fn push_escaped(out: &mut String, line: &Vec<char>)
    ensures
        final(out)@ == old(out)@ + escaped(line@),
{
    let mut i: usize = 0;
    while i < line.len()
        invariant
            i <= line@.len(),
            out@ == old(out)@ + escaped(line@.take(i as int)),
        decreases line@.len() - i,
    {
        let c = line[i];
        proof {
            lemma_escaped_take_step(line@, i as int);
        }
        let after_quote = i > 0 && line[i - 1] == '"';
        if c == '>' && after_quote {
        } else if c == '&' {
            out.append("&amp;");
        } else if c == '<' {
            out.append("&lt;");
        } else if c == '>' {
            out.append("&gt;");
        } else if c == '"' {
            out.append("&quot;");
        } else if c == '\'' {
            out.append("&apos;");
        } else {
            out.push(c);
        }
        proof {
            reveal_strlit("&amp;");
            reveal_strlit("&lt;");
            reveal_strlit("&gt;");
            reveal_strlit("&quot;");
            reveal_strlit("&apos;");
        }
        assert(out@ =~= old(out)@ + escaped(line@.take(i as int)) + escape_piece(
            if i == 0 { None } else { Some(line@[i - 1]) },
            c,
        ));
        i = i + 1;
    }
    assert(line@.take(line@.len() as int) =~= line@);
}

/// Escapes the HTML-special characters of `text`: `&`, `<`, `>`, `"` and `'`
/// become `&amp;`, `&lt;`, `&gt;`, `&quot;` and `&apos;`, except that a `>`
/// right after a `"` is left out; everything else is kept.
pub fn html_escape(text: &str) -> (res: String)
    ensures
        res@ == escaped(text@),
{
    let chars = str_chars(text);
    let mut res = String::new();
    push_escaped(&mut res, &chars);
    assert(res@ =~= escaped(text@));
    res
}

} // verus!
