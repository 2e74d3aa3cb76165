//! Commands are named in any case: the verb of a command is read with its
//! letters upper-cased, so `del`, `Del` and `DEL` are the same command.

use vstd::prelude::*;
use vstd::utf8::{encode_utf8, is_ascii_chars, encode_utf8_valid_utf8, encode_utf8_decode_utf8};
use crate::frame::FrameView;
use crate::text::lossy_text;
use crate::cmd::{CommandView, command_spec, verb_of, ascii_upper};

verus! {

/// `w` is the upper-case word `word` with each of its letters written in
/// either case.
pub open spec fn any_case_of(w: Seq<char>, word: Seq<char>) -> bool {
    &&& w.len() == word.len()
    &&& forall|i: int| 0 <= i < w.len() ==> 'A' <= #[trigger] word[i] <= 'Z' && (w[i] == word[i] || w[i] as int == word[i] as int + 32)
}

proof fn lemma_any_case_verb(w: Seq<char>, word: Seq<char>)
    requires
        any_case_of(w, word),
    ensures
        verb_of(FrameView::BulkString(encode_utf8(w))) == Some(word),
        verb_of(FrameView::SimpleString(w)) == Some(word),
{
    encode_utf8_valid_utf8(w);
    encode_utf8_decode_utf8(w);
    assert(lossy_text(encode_utf8(w)) == w);
    assert(is_ascii_chars(w)) by {
        assert forall|i: int| 0 <= i < w.len() implies '\0' <= #[trigger] w[i] <= '\u{7f}' by {
            assert('A' <= word[i] <= 'Z');
        }
    }
    assert(ascii_upper(w) =~= word) by {
        assert forall|i: int| 0 <= i < w.len() implies #[trigger] ascii_upper(w)[i] == word[i] by {
            assert('A' <= word[i] <= 'Z');
        }
    }
}

/// The verb is read in any case: writing the first element of a command as
/// the same word in other cases, as a bulk string or a simple string, gives
/// the same command (or the same error).
pub proof fn lemma_verb_case_insensitive(w: Seq<char>, word: Seq<char>, rest: Seq<FrameView>)
    requires
        any_case_of(w, word),
    ensures
        command_spec(FrameView::Array(seq![FrameView::BulkString(encode_utf8(w))] + rest))
            == command_spec(FrameView::Array(seq![FrameView::BulkString(encode_utf8(word))] + rest)),
        command_spec(FrameView::Array(seq![FrameView::SimpleString(w)] + rest))
            == command_spec(FrameView::Array(seq![FrameView::BulkString(encode_utf8(word))] + rest)),
{
    assert(any_case_of(word, word));
    lemma_any_case_verb(w, word);
    lemma_any_case_verb(word, word);
    let a = seq![FrameView::BulkString(encode_utf8(w))] + rest;
    let b = seq![FrameView::BulkString(encode_utf8(word))] + rest;
    let c = seq![FrameView::SimpleString(w)] + rest;
    assert(a.len() == b.len() && c.len() == b.len());
    assert forall|i: int| 1 <= i < b.len() implies a[i] == b[i] && c[i] == b[i] by {
        assert(a[i] == rest[i - 1]);
        assert(b[i] == rest[i - 1]);
        assert(c[i] == rest[i - 1]);
    }
    if b.len() > 1 {
        assert(a[1] == b[1] && c[1] == b[1]);
    }
    if b.len() > 2 {
        assert(a[2] == b[2] && c[2] == b[2]);
    }
    if b.len() > 4 {
        assert(a[3] == b[3] && c[3] == b[3]);
        assert(a[4] == b[4] && c[4] == b[4]);
    }
}

/// `GET`, `DEL` and `EXIST` with a key, and `SET` with a key and a value, are
/// understood whatever the case of their verb.
pub proof fn lemma_verbs_in_any_case(w: Seq<char>, kb: Seq<u8>, v: FrameView)
    ensures
        any_case_of(w, "GET"@) ==> command_spec(FrameView::Array(seq![FrameView::BulkString(encode_utf8(w)), FrameView::BulkString(kb)]))
            == Ok::<CommandView, Seq<char>>(CommandView::Get { key: lossy_text(kb) }),
        any_case_of(w, "DEL"@) ==> command_spec(FrameView::Array(seq![FrameView::BulkString(encode_utf8(w)), FrameView::BulkString(kb)]))
            == Ok::<CommandView, Seq<char>>(CommandView::Del { key: lossy_text(kb) }),
        any_case_of(w, "EXIST"@) ==> command_spec(FrameView::Array(seq![FrameView::BulkString(encode_utf8(w)), FrameView::BulkString(kb)]))
            == Ok::<CommandView, Seq<char>>(CommandView::Exist { key: lossy_text(kb) }),
        any_case_of(w, "SET"@) ==> command_spec(FrameView::Array(seq![FrameView::BulkString(encode_utf8(w)), FrameView::BulkString(kb), v]))
            == Ok::<CommandView, Seq<char>>(CommandView::SetKey { key: lossy_text(kb), value: v, time: None }),
{
    reveal_strlit("GET");
    reveal_strlit("DEL");
    reveal_strlit("EXIST");
    reveal_strlit("SET");
    assert("GET"@[0] != "SET"@[0] && "GET"@[0] != "DEL"@[0] && "GET"@[0] != "EXIST"@[0]);
    assert("SET"@[0] != "DEL"@[0] && "SET"@[0] != "EXIST"@[0] && "DEL"@[0] != "EXIST"@[0]);
    if any_case_of(w, "GET"@) {
        lemma_any_case_verb(w, "GET"@);
    }
    if any_case_of(w, "DEL"@) {
        lemma_any_case_verb(w, "DEL"@);
    }
    if any_case_of(w, "EXIST"@) {
        lemma_any_case_verb(w, "EXIST"@);
    }
    if any_case_of(w, "SET"@) {
        lemma_any_case_verb(w, "SET"@);
    }
}

} // verus!
