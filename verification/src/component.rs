//! Names as udev writes them.

#[allow(unused_imports)]
use crate::text;
use vstd::prelude::*;

verus! {

/// The character may stand in an encoded name: it is in
/// `[A-Za-z0-9#+\-.:=@]`.
pub open spec fn name_char(c: char) -> bool {
    ||| 'A' <= c <= 'Z'
    ||| 'a' <= c <= 'z'
    ||| '0' <= c <= '9'
    ||| c == '#'
    ||| c == '+'
    ||| c == '-'
    ||| c == '.'
    ||| c == ':'
    ||| c == '='
    ||| c == '@'
}

/// The longest runs of name characters in the text, in order.
pub open spec fn runs(text: Seq<char>) -> Seq<Seq<char>>
    decreases text.len(),
{
    if text.len() == 0 {
        Seq::empty()
    } else {
        let before = text.drop_last();
        let c = text.last();
        if !name_char(c) {
            runs(before)
        } else if before.len() > 0 && name_char(before.last()) {
            runs(before).drop_last().push(runs(before).last().push(c))
        } else {
            runs(before).push(seq![c])
        }
    }
}

/// The runs with one `_` between each and the next.
pub open spec fn joined(r: Seq<Seq<char>>) -> Seq<char>
    decreases r.len(),
{
    if r.len() == 0 {
        Seq::empty()
    } else if r.len() == 1 {
        r[0]
    } else {
        joined(r.drop_last()).push('_') + r.last()
    }
}

/// The text as udev writes it in a name: its runs of name characters, with one
/// `_` in place of whatever stands between two of them.
pub open spec fn encoded(text: Seq<char>) -> Seq<char> {
    joined(runs(text))
}

/// The text is as [`encode_component`] leaves it: name characters and `_`,
/// with no leading, trailing or doubled `_`.
pub open spec fn well_encoded(text: Seq<char>) -> bool {
    &&& forall|i: int| 0 <= i < text.len() ==> name_char(#[trigger] text[i]) || text[i] == '_'
    &&& text.len() > 0 ==> text[0] != '_' && text.last() != '_'
    &&& forall|i: int, j: int|
        0 <= i && j == i + 1 && j < text.len() && #[trigger] text[i] == '_' ==> #[trigger] text[j]
            != '_'
}

fn is_name_char(c: char) -> (r: bool)
    ensures
        r == name_char(c),
{
    ('A' <= c && c <= 'Z') || ('a' <= c && c <= 'z') || ('0' <= c && c <= '9') || matches!(
        c,
        '#' | '+' | '-' | '.' | ':' | '=' | '@'
    )
}

proof fn lemma_runs(text: Seq<char>)
    ensures
        forall|i: int| 0 <= i < runs(text).len() ==> (#[trigger] runs(text)[i]).len() > 0,
        text.len() > 0 && name_char(text.last()) ==> runs(text).len() > 0,
    decreases text.len(),
{
    if text.len() > 0 {
        lemma_runs(text.drop_last());
        let before = runs(text.drop_last());
        assert forall|i: int| 0 <= i < runs(text).len() implies (#[trigger] runs(text)[i]).len()
            > 0 by {
            if i < before.len() {
                assert(before[i].len() > 0);
            }
        }
    }
}

proof fn lemma_joined_push(r: Seq<Seq<char>>, run: Seq<char>)
    ensures
        joined(r.push(run)) == if r.len() == 0 {
            run
        } else {
            joined(r).push('_') + run
        },
{
    assert(r.push(run).drop_last() =~= r);
}

proof fn lemma_joined_len(r: Seq<Seq<char>>)
    requires
        forall|i: int| 0 <= i < r.len() ==> (#[trigger] r[i]).len() > 0,
    ensures
        joined(r).len() == 0 <==> r.len() == 0,
{
}

/// What one more character does to the encoded text.
proof fn lemma_encoded_push(text: Seq<char>, c: char)
    ensures
        encoded(text.push(c)) == if !name_char(c) {
            encoded(text)
        } else if text.len() > 0 && name_char(text.last()) || encoded(text).len() == 0 {
            encoded(text).push(c)
        } else {
            encoded(text).push('_').push(c)
        },
{
    let r = runs(text);
    assert(text.push(c).drop_last() =~= text);
    lemma_runs(text);
    lemma_joined_len(r);
    if name_char(c) {
        if text.len() > 0 && name_char(text.last()) {
            let longer = r.last().push(c);
            lemma_joined_push(r.drop_last(), longer);
            lemma_joined_push(r.drop_last(), r.last());
            assert(r.drop_last().push(r.last()) =~= r);
            if r.len() > 1 {
                let head = joined(r.drop_last()).push('_');
                assert(head + longer =~= (head + r.last()).push(c));
            }
        } else {
            lemma_joined_push(r, seq![c]);
            if r.len() == 0 {
                assert(seq![c] =~= encoded(text).push(c));
            } else {
                assert(joined(r).push('_') + seq![c] =~= encoded(text).push('_').push(c));
            }
        }
    }
}

/// Writes a text as udev writes it in a name: runs of characters outside
/// `[A-Za-z0-9#+\-.:=@]` collapse to a single `_`, with no leading, trailing
/// or doubled `_`.
pub fn encode_component(raw: &str) -> (out: String)
    ensures
        out@ == encoded(raw@),
        well_encoded(out@),
{
    let mut out = String::new();
    let mut in_run = false;
    for c in it: raw.chars()
        invariant
            it.seq() == raw@,
            out@ == encoded(raw@.take(it.index())),
            in_run == (it.index() > 0 && name_char(raw@[it.index() - 1])),
    {
        proof {
            let n = it.index();
            lemma_encoded_push(raw@.take(n), c);
            assert(raw@.take(n + 1) =~= raw@.take(n).push(c));
        }
        in_run = if is_name_char(c) {
            if !in_run && !out.as_str().is_empty() {
                out.push('_');
            }
            out.push(c);
            true
        } else {
            false
        };
    }
    assert(raw@.take(raw@.len() as int) =~= raw@);
    proof {
        encoding_is_clean(raw@);
    }
    out
}

/// An encoded text holds name characters and `_` alone, with no leading,
/// trailing or doubled `_`.
pub proof fn encoding_is_clean(text: Seq<char>)
    ensures
        well_encoded(encoded(text)),
    decreases text.len(),
{
    if text.len() > 0 {
        let before = text.drop_last();
        encoding_is_clean(before);
        lemma_encoded_push(before, text.last());
        assert(before.push(text.last()) =~= text);
    }
}

/// A text that is clean already is left as it is.
pub proof fn clean_text_is_kept(text: Seq<char>)
    requires
        well_encoded(text),
    ensures
        encoded(text) == text,
{
    lemma_clean_prefix_is_kept(text, text.len() as int);
    assert(text.take(text.len() as int) =~= text);
}

proof fn lemma_clean_prefix_is_kept(text: Seq<char>, n: int)
    requires
        well_encoded(text),
        0 <= n <= text.len(),
    ensures
        encoded(text.take(n)) == if n > 0 && text[n - 1] == '_' {
            text.take(n - 1)
        } else {
            text.take(n)
        },
    decreases n,
{
    if n > 0 {
        lemma_clean_prefix_is_kept(text, n - 1);
        let before = text.take(n - 1);
        let c = text[n - 1];
        assert(text.take(n) =~= before.push(c));
        lemma_encoded_push(before, c);
        if n > 1 {
            assert(before.last() == text[n - 2]);
            assert(text[n - 2] == '_' ==> c != '_');
            if text[n - 2] == '_' {
                assert(n > 2);
                assert(text.take(n - 2).push('_') =~= before);
            }
        }
    } else {
        assert(text.take(0) =~= Seq::<char>::empty());
    }
}

/// Encoding an encoded text changes nothing.
pub proof fn encoding_is_idempotent(text: Seq<char>)
    ensures
        encoded(encoded(text)) == encoded(text),
{
    encoding_is_clean(text);
    clean_text_is_kept(encoded(text));
}

proof fn lemma_leading_other(text: Seq<char>)
    requires
        text.len() > 0,
        !name_char(text[0]),
    ensures
        encoded(text) == encoded(text.drop_first()),
    decreases text.len(),
{
    let c = text.last();
    let before = text.drop_last();
    let rest = text.drop_first();
    assert(before.push(c) =~= text);
    lemma_encoded_push(before, c);
    if text.len() == 1 {
        assert(before =~= rest);
    } else {
        lemma_leading_other(before);
        assert(before.drop_first() =~= rest.drop_last());
        assert(rest.drop_last().push(c) =~= rest);
        lemma_encoded_push(rest.drop_last(), c);
        if rest.len() == 1 {
            assert(before.last() == text[0]);
            assert(rest.drop_last() =~= Seq::<char>::empty());
        } else {
            assert(before.last() == rest.drop_last().last());
        }
    }
}

proof fn lemma_trimmed_start_encoded(text: Seq<char>)
    ensures
        encoded(text::trimmed_start(text)) == encoded(text),
    decreases text.len(),
{
    if text.len() > 0 && text::white_space(text[0]) {
        lemma_leading_other(text);
        lemma_trimmed_start_encoded(text.drop_first());
    }
}

proof fn lemma_trimmed_end_encoded(text: Seq<char>)
    ensures
        encoded(text::trimmed_end(text)) == encoded(text),
    decreases text.len(),
{
    if text.len() > 0 && text::white_space(text.last()) {
        lemma_encoded_push(text.drop_last(), text.last());
        assert(text.drop_last().push(text.last()) =~= text);
        lemma_trimmed_end_encoded(text.drop_last());
    }
}

/// White space around a text has no bearing on how it is encoded.
pub proof fn white_space_around_does_not_matter(text: Seq<char>)
    ensures
        encoded(text::trimmed(text)) == encoded(text),
{
    lemma_trimmed_start_encoded(text);
    lemma_trimmed_end_encoded(text::trimmed_start(text));
}

/// The characters that may stand in a name are the ASCII letters and digits and
/// `#`, `+`, `-`, `.`, `:`, `=` and `@`; neither `_` nor white space is one.
pub proof fn name_characters(c: char)
    ensures
        name_char(c) <==> {
            let n = c as u32;
            ||| 0x41 <= n <= 0x5a
            ||| 0x61 <= n <= 0x7a
            ||| 0x30 <= n <= 0x39
            ||| n == 0x23
            ||| n == 0x2b
            ||| n == 0x2d
            ||| n == 0x2e
            ||| n == 0x3a
            ||| n == 0x3d
            ||| n == 0x40
        },
        !name_char('_'),
        text::white_space(c) ==> !name_char(c),
{
}

/// Each character that may stand in a name is kept, and a text that is made of
/// such characters alone is kept as it is.
pub proof fn names_are_kept(text: Seq<char>)
    requires
        forall|i: int| 0 <= i < text.len() ==> name_char(#[trigger] text[i]),
    ensures
        encoded(text) == text,
{
    assert(well_encoded(text)) by {
        assert forall|i: int| 0 <= i < text.len() implies #[trigger] text[i] != '_' by {
            assert(name_char(text[i]));
        }
    }
    clean_text_is_kept(text);
}

/// Nothing is left of a text without a character that may stand in a name.
pub proof fn nothing_else_is_kept(text: Seq<char>)
    requires
        forall|i: int| 0 <= i < text.len() ==> !name_char(#[trigger] text[i]),
    ensures
        encoded(text) == Seq::<char>::empty(),
    decreases text.len(),
{
    if text.len() > 0 {
        let before = text.drop_last();
        assert forall|i: int| 0 <= i < before.len() implies !name_char(#[trigger] before[i]) by {
            assert(before[i] == text[i]);
        }
        nothing_else_is_kept(before);
        lemma_encoded_push(before, text.last());
        assert(before.push(text.last()) =~= text);
        assert(!name_char(text[text.len() - 1]));
    }
}

proof fn lemma_encoded_nonempty(text: Seq<char>)
    requires
        text.len() > 0,
        name_char(text.last()),
    ensures
        encoded(text).len() > 0,
{
    lemma_encoded_push(text.drop_last(), text.last());
    assert(text.drop_last().push(text.last()) =~= text);
}

/// Where a run of characters that may not stand in a name parts a text, one `_`
/// stands between what is left of its two sides; at either end of the text
/// nothing stands for such a run.
pub proof fn other_runs_become_one_underscore(a: Seq<char>, run: Seq<char>, b: Seq<char>)
    requires
        run.len() > 0,
        forall|i: int| 0 <= i < run.len() ==> !name_char(#[trigger] run[i]),
    ensures
        encoded(a + run + b) == if encoded(a).len() == 0 {
            encoded(b)
        } else if encoded(b).len() == 0 {
            encoded(a)
        } else {
            encoded(a) + seq!['_'] + encoded(b)
        },
    decreases b.len(), run.len(),
{
    if b.len() == 0 {
        assert(b =~= Seq::<char>::empty());
        assert(encoded(b) =~= Seq::<char>::empty());
        let before = run.drop_last();
        let last = run.last();
        assert(!name_char(run[run.len() - 1]));
        lemma_encoded_push(a + before, last);
        assert((a + before).push(last) =~= a + run + b);
        if before.len() == 0 {
            assert(a + before =~= a);
        } else {
            assert forall|i: int| 0 <= i < before.len() implies !name_char(#[trigger] before[i]) by {
                assert(before[i] == run[i]);
            }
            other_runs_become_one_underscore(a, before, b);
            assert(a + before + b =~= a + before);
        }
        if encoded(a).len() == 0 {
            assert(encoded(a) =~= encoded(b));
        }
    } else {
        let c = b.last();
        let b0 = b.drop_last();
        other_runs_become_one_underscore(a, run, b0);
        assert((a + run + b0).push(c) =~= a + run + b);
        assert(b0.push(c) =~= b);
        lemma_encoded_push(a + run + b0, c);
        lemma_encoded_push(b0, c);
        if b0.len() == 0 {
            assert((a + run + b0).last() == run[run.len() - 1]);
            assert(encoded(b0) =~= Seq::<char>::empty());
        } else {
            assert((a + run + b0).last() == b0.last());
            if name_char(b0.last()) {
                lemma_encoded_nonempty(b0);
            }
        }
        if name_char(c) {
            assert(encoded(a + run + b) =~= if encoded(a).len() == 0 {
                encoded(b)
            } else {
                encoded(a) + seq!['_'] + encoded(b)
            });
        }
    }
}

} // verus!
