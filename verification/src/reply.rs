//! Reading the keys of replies and of localized messages.
use vstd::prelude::*;
use crate::text::{chars_of, string_of, first_pos, find_char, slice_range, split_on};

verus! {

/// A reply `error:key:message` names the message `key` and carries
/// `message` as its error; any other reply names itself.
pub open spec fn reply_key_spec(s: Seq<char>) -> (Seq<char>, Option<Seq<char>>) {
    let prefix = "error:"@;
    if s.len() >= prefix.len() && s.take(prefix.len() as int) == prefix {
        let rest = s.skip(prefix.len() as int);
        match first_pos(rest, ':') {
            Some(p) => (rest.take(p), Some(rest.skip(p + 1))),
            None => (s, None),
        }
    } else {
        (s, None)
    }
}

/// The message key of a reply and the error it carries, if any.
pub fn reply_key(s: &str) -> (r: (String, Option<String>))
    ensures
        r.0@ == reply_key_spec(s@).0,
        match (r.1, reply_key_spec(s@).1) {
            (None, None) => true,
            (Some(a), Some(b)) => a@ == b,
            _ => false,
        },
{
    let cs = chars_of(s);
    let prefix = chars_of("error:");
    proof { reveal_strlit("error:"); }
    if cs.len() >= 6 && cs[0] == 'e' && cs[1] == 'r' && cs[2] == 'r' && cs[3] == 'o' && cs[4] == 'r' && cs[5] == ':' {
        assert(cs@.take(6) =~= prefix@);
        let rest = slice_range(&cs, 6, cs.len());
        assert(rest@ =~= cs@.skip(6));
        match find_char(&rest, ':') {
            Some(p) => {
                let key = slice_range(&rest, 0, p);
                assert(key@ =~= rest@.take(p as int));
                let msg = slice_range(&rest, p + 1, rest.len());
                assert(msg@ =~= rest@.skip(p + 1));
                (string_of(&key), Some(string_of(&msg)))
            },
            None => (String::from_str(s), None),
        }
    } else {
        proof {
            if cs@.len() >= 6 && cs@.take(6) == prefix@ {
                assert(cs@.take(6)[0] == cs@[0]);
                assert(cs@.take(6)[1] == cs@[1]);
                assert(cs@.take(6)[2] == cs@[2]);
                assert(cs@.take(6)[3] == cs@[3]);
                assert(cs@.take(6)[4] == cs@[4]);
                assert(cs@.take(6)[5] == cs@[5]);
            }
        }
        (String::from_str(s), None)
    }
}

/// A message id `base.attribute` names an attribute of the message `base`
/// (split at the first `.`); an id without `.` names the message itself.
pub open spec fn message_id_spec(id: Seq<char>) -> (Seq<char>, Option<Seq<char>>) {
    match first_pos(id, '.') {
        Some(p) => (id.take(p), Some(id.skip(p + 1))),
        None => (id, None),
    }
}

/// The message and the attribute that a message id names.
pub fn split_message_id(id: &str) -> (r: (String, Option<String>))
    ensures
        r.0@ == message_id_spec(id@).0,
        match (r.1, message_id_spec(id@).1) {
            (None, None) => true,
            (Some(a), Some(b)) => a@ == b,
            _ => false,
        },
{
    let cs = chars_of(id);
    match find_char(&cs, '.') {
        Some(p) => {
            let n = cs.len();
            assert(p < n);
            let base = slice_range(&cs, 0, p);
            assert(base@ =~= cs@.take(p as int));
            let attr = slice_range(&cs, p + 1, n);
            assert(attr@ =~= cs@.skip(p + 1));
            (string_of(&base), Some(string_of(&attr)))
        },
        None => (String::from_str(id), None),
    }
}


/// What `regex::Regex::captures_iter` with the pattern `\{\$(\w+)\}` gives
/// as its first groups on a text: the names of the variables written
/// `{$name}`, in order, a name being one or more Unicode word characters.
pub uninterp spec fn pattern_variables(pattern: Seq<char>) -> Seq<Seq<char>>;

/// `regex::Regex::captures_iter` with the pattern `\{\$(\w+)\}`, each
/// match taken by its first group: the result is `pattern_variables` of the
/// text, and each name is not empty (the group is `\w+`).
#[verifier::external_body]
fn regex_variables(pattern: &str) -> (r: Vec<String>)
    ensures
        r@.map_values(|v: String| v@) == pattern_variables(pattern@),
        forall|k: int| 0 <= k < r@.len() ==> (#[trigger] r@[k])@.len() > 0,
{
    regex::Regex::new(r"\{\$(\w+)\}").unwrap().captures_iter(pattern).map(|cap| cap[1].to_string()).collect()
}

/// The variables `{$name}` of a message pattern, in order.
pub fn extract_variables_from_pattern(pattern: &str) -> (r: Vec<String>)
    ensures
        r@.map_values(|v: String| v@) == pattern_variables(pattern@),
        forall|k: int| 0 <= k < r@.len() ==> (#[trigger] r@[k])@.len() > 0,
{
    regex_variables(pattern)
}

} // verus!
