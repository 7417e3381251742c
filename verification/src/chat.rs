//! Conversation-level helpers of the chat front end: GUID detection,
//! context-window cutoff, conversation naming and prompt assembly.
//!
//! Their callers do the network and filesystem work and hand plain values
//! in; everything that decides or computes is here, verified.

use vstd::prelude::*;
use vstd::string::StrSliceExecFns;
use vstd::string::StringExecFns;

use crate::outside::char_is_alphanumeric;
use crate::outside::alnum_of;
use crate::text::string_from_chars;
use crate::text::string_to_chars;
use crate::types::{Conversation, Message};

verus! {

/// Context-window budget for one completion request, in weight units:
/// tokenizer tokens when the caller supplies weights, UTF-8 bytes
/// otherwise.
pub const CONTEXT_LIMIT: usize = 128000;

/// An ASCII hexadecimal digit.
pub open spec fn is_hex_digit(c: char) -> bool {
    (48 <= c as u32 && c as u32 <= 57) || (97 <= c as u32 && c as u32 <= 102) || (65 <= c as u32
        && c as u32 <= 70)
}

/// The 8-4-4-4-12 GUID shape: 36 characters, dashes at the four fixed
/// positions, hexadecimal digits everywhere else.
pub open spec fn is_guid(s: Seq<char>) -> bool {
    &&& s.len() == 36
    &&& s[8] == '-'
    &&& s[13] == '-'
    &&& s[18] == '-'
    &&& s[23] == '-'
    &&& forall|i: int|
        0 <= i < 36 && i != 8 && i != 13 && i != 18 && i != 23 ==> is_hex_digit(#[trigger] s[i])
}

/// Whether a string has the GUID shape; fresh conversations are named by a
/// GUID until a real name is generated.
pub fn is_valid_guid(guid: &str) -> (r: bool)
    ensures
        r == is_guid(guid@),
{
    let n = guid.unicode_len();
    if n != 36 {
        return false;
    }
    if guid.get_char(8) != '-' || guid.get_char(13) != '-' || guid.get_char(18) != '-'
        || guid.get_char(23) != '-' {
        return false;
    }
    let mut i: usize = 0;
    while i < 36
        invariant
            i <= 36,
            guid@.len() == 36,
            guid@[8] == '-',
            guid@[13] == '-',
            guid@[18] == '-',
            guid@[23] == '-',
            forall|k: int|
                0 <= k < i && k != 8 && k != 13 && k != 18 && k != 23 ==> is_hex_digit(
                    #[trigger] guid@[k],
                ),
        decreases 36 - i,
    {
        if i != 8 && i != 13 && i != 18 && i != 23 {
            let c = guid.get_char(i);
            let v = c as u32;
            let hex = (48 <= v && v <= 57) || (97 <= v && v <= 102) || (65 <= v && v <= 70);
            if !hex {
                return false;
            }
        }
        i = i + 1;
    }
    true
}

/// The per-message weights in view form: token counts supplied by the
/// caller's tokenizer, or nothing, in which case UTF-8 byte lengths
/// stand in.
pub open spec fn weights_view(w: Option<&Vec<usize>>) -> Option<Seq<usize>> {
    match w {
        Some(v) => Some(v@),
        None => None,
    }
}

/// Length message `i` contributes to the running total: nothing when its
/// content is empty, its supplied weight when weights were given, its
/// UTF-8 byte length otherwise.
pub open spec fn message_weight(ms: Seq<Message>, ws: Option<Seq<usize>>, i: int) -> int {
    if ms[i].content@.len() == 0 {
        0
    } else {
        match ws {
            Some(w) => w[i] as int,
            None => vstd::utf8::encode_utf8(ms[i].content@).len() as int,
        }
    }
}

/// Total weight of the last `p` messages, scanning from the end of the
/// conversation.
pub open spec fn rev_total(ms: Seq<Message>, ws: Option<Seq<usize>>, p: int) -> int
    decreases p,
{
    if p <= 0 || p > ms.len() {
        0
    } else {
        rev_total(ms, ws, p - 1) + message_weight(ms, ws, ms.len() - p)
    }
}

/// The cutoff index after scanning `p` messages from the end: it starts at
/// the last index and moves one to the left (stopping at zero) for every
/// non-empty message scanned while the running total is still within the
/// context limit.
pub open spec fn cutoff_index(ms: Seq<Message>, ws: Option<Seq<usize>>, p: int) -> int
    decreases p,
{
    if p <= 0 || p > ms.len() {
        ms.len() - 1
    } else {
        let prev = cutoff_index(ms, ws, p - 1);
        let m = ms[ms.len() - p];
        if m.content@.len() > 0 && rev_total(ms, ws, p) < CONTEXT_LIMIT {
            if prev > 0 {
                prev - 1
            } else {
                0
            }
        } else {
            prev
        }
    }
}

/// The conversation history that fits the context window: scans messages
/// from the newest backwards, totalling their weights (caller-supplied
/// token counts, or UTF-8 byte lengths), and returns the total together
/// with the messages from the cutoff index on.
pub fn cutoff_messages(messages: &Vec<Message>, weights: Option<&Vec<usize>>) -> (r: (
    usize,
    Vec<Message>,
))
    requires
        messages@.len() >= 1,
        match weights {
            Some(w) => w@.len() == messages@.len(),
            None => true,
        },
        rev_total(messages@, weights_view(weights), messages@.len() as int) <= usize::MAX,
    ensures
        r.0 == rev_total(messages@, weights_view(weights), messages@.len() as int),
        r.1@ == messages@.subrange(
            cutoff_index(messages@, weights_view(weights), messages@.len() as int),
            messages@.len() as int,
        ),
{
    let ghost wv = weights_view(weights);
    let n = messages.len();
    let mut cutoff: usize = n - 1;
    let mut total_len: usize = 0;
    let mut p: usize = 0;
    while p < n
        invariant
            p <= n,
            n == messages@.len(),
            n >= 1,
            wv == weights_view(weights),
            match weights {
                Some(w) => w@.len() == n,
                None => true,
            },
            cutoff == cutoff_index(messages@, wv, p as int),
            total_len == rev_total(messages@, wv, p as int),
            cutoff <= n - 1,
            rev_total(messages@, wv, n as int) <= usize::MAX,
        decreases n - p,
    {
        let m = &messages[n - 1 - p];
        proof {
            lemma_rev_total_mono(messages@, wv, p as int + 1, n as int);
        }
        if m.content.as_str().is_empty() {
            // an empty message adds no weight and moves no cutoff
        } else {
            let w = match weights {
                Some(ws) => ws[n - 1 - p],
                None => m.content.as_str().len(),
            };
            total_len = total_len + w;
            if total_len < CONTEXT_LIMIT {
                if cutoff > 0 {
                    cutoff = cutoff - 1;
                }
            }
        }
        p = p + 1;
    }
    let mut kept: Vec<Message> = Vec::new();
    let mut i: usize = cutoff;
    while i < n
        invariant
            cutoff <= i <= n,
            n == messages@.len(),
            kept@ == messages@.subrange(cutoff as int, i as int),
        decreases n - i,
    {
        kept.push(messages[i].duplicate());
        proof {
            assert(kept@ =~= messages@.subrange(cutoff as int, i as int + 1));
        }
        i = i + 1;
    }
    (total_len, kept)
}

/// A later running total is never smaller than an earlier one.
proof fn lemma_rev_total_mono(ms: Seq<Message>, ws: Option<Seq<usize>>, p: int, q: int)
    requires
        0 <= p <= q <= ms.len(),
    ensures
        rev_total(ms, ws, p) <= rev_total(ms, ws, q),
    decreases q - p,
{
    if p < q {
        lemma_rev_total_mono(ms, ws, p, q - 1);
        assert(rev_total(ms, ws, q) == rev_total(ms, ws, q - 1) + message_weight(
            ms,
            ws,
            ms.len() - q,
        ));
    }
}

/// One character of a proposed conversation name, made safe for use as a
/// filename: path and shell metacharacters become underscores, and so does
/// anything that is not alphanumeric, a dot, a dash or a space.
pub open spec fn sanitize_char(c: char) -> char {
    if c == '/' || c == '\\' || c == ':' || c == '*' || c == '?' || c == '"' || c == '<' || c
        == '>' || c == '|' {
        '_'
    } else if alnum_of(c) || c == '.' || c == '-' || c == ' ' {
        c
    } else {
        '_'
    }
}

/// A proposed name with every character made filename-safe.
pub open spec fn sanitize_name(s: Seq<char>) -> Seq<char> {
    Seq::new(s.len(), |i: int| sanitize_char(s[i]))
}

/// Adopt a generated name for a conversation that still carries its GUID
/// placeholder name.  The proposed name (as returned by the naming model)
/// is sanitized; a conversation already named is left untouched.
pub fn generate_name(conversation: &mut Conversation, proposed: &str)
    ensures
        final(conversation).id == old(conversation).id,
        final(conversation).messages == old(conversation).messages,
        !is_guid(old(conversation).name@) ==> final(conversation).name == old(
            conversation,
        ).name,
        is_guid(old(conversation).name@) ==> final(conversation).name@ == sanitize_name(
            proposed@,
        ),
{
    if !is_valid_guid(conversation.name.as_str()) {
        return ;
    }
    let chars = string_to_chars(proposed);
    let mut clean: Vec<char> = Vec::new();
    let mut i: usize = 0;
    while i < chars.len()
        invariant
            i <= chars@.len(),
            chars@ == proposed@,
            clean@.len() == i,
            forall|k: int| 0 <= k < i ==> clean@[k] == sanitize_char(#[trigger] chars@[k]),
        decreases chars@.len() - i,
    {
        let c = chars[i];
        let mapped: char = if c == '/' || c == '\\' || c == ':' || c == '*' || c == '?' || c
            == '"' || c == '<' || c == '>' || c == '|' {
            '_'
        } else if char_is_alphanumeric(c) || c == '.' || c == '-' || c == ' ' {
            c
        } else {
            '_'
        };
        clean.push(mapped);
        i = i + 1;
    }
    proof {
        assert(clean@ =~= sanitize_name(proposed@));
    }
    conversation.name = string_from_chars(&clean);
}

/// The fixed opening of every system prompt.
pub fn prompt_head() -> (r: String)
    ensures
        r@ == "<systemPrompt><objective>Determine whether to use the following references to inform your response, and do so without explicitly acknowledging it. Incorporate into your judgment whether this moves the conversation forward, in the same direction as the user. If you decide to use it, do so in a friendly, familiar manner--leave what should stay unsaid, but implicitly acknowledge the history. If reasonable, try and use the references to fill in contextual gaps.</objective><references>"@,
{
    "<systemPrompt><objective>Determine whether to use the following references to inform your response, and do so without explicitly acknowledging it. Incorporate into your judgment whether this moves the conversation forward, in the same direction as the user. If you decide to use it, do so in a friendly, familiar manner--leave what should stay unsaid, but implicitly acknowledge the history. If reasonable, try and use the references to fill in contextual gaps.</objective><references>".to_owned()
}

/// A reference's contribution to the prompt: its first 512 characters,
/// wrapped in a reference element.
pub open spec fn wrapped_reference(s: Seq<char>) -> Seq<char> {
    "<reference>"@ + (if s.len() <= 512 {
        s
    } else {
        s.take(512)
    }) + "</reference>"@
}

/// The prompt text after folding in references from index `i` on: each is
/// appended while the conversation length plus the prompt built so far
/// stays within the context limit.
pub open spec fn fold_references(acc: Seq<char>, conv_len: int, refs: Seq<Seq<char>>, i: int) -> Seq<char>
    decreases refs.len() - i,
{
    if i < 0 || i >= refs.len() {
        acc
    } else if conv_len + acc.len() > CONTEXT_LIMIT {
        acc
    } else {
        fold_references(acc + wrapped_reference(refs[i]), conv_len, refs, i + 1)
    }
}

/// Assemble the system prompt from reference contents already read by the
/// caller: a fixed objective, then as many references as the context
/// window allows, each truncated to 512 characters.
pub fn build_system_prompt(conversation_len: usize, references: &Vec<String>) -> (r: String)
    ensures
        r@ == fold_references(
            prompt_head_text(),
            conversation_len as int,
            crate::embedding::strings_view(references@),
            0,
        ) + "</references></systemPrompt>"@,
{
    let ghost rv = crate::embedding::strings_view(references@);
    let mut prompt = prompt_head();
    let mut i: usize = 0;
    let mut done: bool = false;
    while i < references.len() && !done
        invariant
            i <= references@.len(),
            rv == crate::embedding::strings_view(references@),
            fold_references(prompt_head_text(), conversation_len as int, rv, 0)
                == fold_references(prompt@, conversation_len as int, rv, i as int),
            done ==> conversation_len + prompt@.len() > CONTEXT_LIMIT,
        decreases references@.len() - i + (if done {
            0int
        } else {
            1int
        }),
    {
        let prompt_len = prompt.as_str().unicode_len();
        if conversation_len > CONTEXT_LIMIT || prompt_len > CONTEXT_LIMIT - conversation_len {
            done = true;
        } else {
            let contents = &references[i];
            let chars = string_to_chars(contents.as_str());
            let take_n: usize = if chars.len() <= 512 {
                chars.len()
            } else {
                512
            };
            let ghost before = prompt@;
            prompt.append("<reference>");
            let mut k: usize = 0;
            let ghost mid = prompt@;
            while k < take_n
                invariant
                    k <= take_n <= chars@.len(),
                    prompt@ == mid + chars@.take(k as int),
                decreases take_n - k,
            {
                crate::outside::push_char(&mut prompt, chars[k]);
                proof {
                    assert(prompt@ =~= mid + chars@.take(k as int + 1));
                }
                k = k + 1;
            }
            prompt.append("</reference>");
            proof {
                assert(rv[i as int] == references@[i as int]@);
                if chars@.len() <= 512 {
                    assert(chars@.take(take_n as int) =~= chars@);
                }
                assert(prompt@ =~= before + wrapped_reference(rv[i as int]));
                assert(fold_references(before, conversation_len as int, rv, i as int)
                    == fold_references(prompt@, conversation_len as int, rv, i as int + 1));
            }
            i = i + 1;
        }
    }
    proof {
        assert(fold_references(prompt@, conversation_len as int, rv, i as int) == prompt@);
    }
    prompt.append("</references></systemPrompt>");
    prompt
}

/// The text of `prompt_head`, for specifications.
pub open spec fn prompt_head_text() -> Seq<char> {
    "<systemPrompt><objective>Determine whether to use the following references to inform your response, and do so without explicitly acknowledging it. Incorporate into your judgment whether this moves the conversation forward, in the same direction as the user. If you decide to use it, do so in a friendly, familiar manner--leave what should stay unsaid, but implicitly acknowledge the history. If reasonable, try and use the references to fill in contextual gaps.</objective><references>"@
}

} // verus!
