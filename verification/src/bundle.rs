//! Bundles of events and their compact JSON text.

use vstd::prelude::*;
use vstd::string::StringExecFns;
use crate::error::StegError;
use crate::event::{
    create_kind1_event, decimal, ensure_stegstr_suffix, is_signed_note, json_string, note_text,
    note_verifies, push_char, signature_holds, write_decimal, write_json_string, Event,
};
use crate::keys::{valid_secret_key, SecretKey};

verus! {

/// A list of events for transport.
#[derive(Clone, Debug, PartialEq, Eq)]
pub struct Bundle {
    /// The format version, 1.
    pub version: u32,
    /// The events.
    pub events: Vec<Event>,
}

/// The items with a comma between neighbours.
pub open spec fn joined(items: Seq<Seq<char>>) -> Seq<char>
    decreases items.len(),
{
    if items.len() == 0 {
        Seq::<char>::empty()
    } else if items.len() == 1 {
        items[0]
    } else {
        joined(items.drop_last()) + seq![','] + items.last()
    }
}

/// A JSON array of items that are JSON already.
pub open spec fn json_array(items: Seq<Seq<char>>) -> Seq<char> {
    seq!['['] + joined(items) + seq![']']
}

/// A tag as a JSON array of strings.
pub open spec fn json_tag(tag: Vec<String>) -> Seq<char> {
    json_array(Seq::new(tag@.len(), |i: int| json_string(tag@[i]@)))
}

/// The tags as a JSON array of arrays.
pub open spec fn json_tags(tags: Vec<Vec<String>>) -> Seq<char> {
    json_array(Seq::new(tags@.len(), |i: int| json_tag(tags@[i])))
}

/// An event as a JSON object, its fields in the order id, pubkey,
/// created_at, kind, tags, content, sig, with no whitespace.
pub open spec fn json_event(event: Event) -> Seq<char> {
    "{\"id\":"@ + json_string(event.id@) + ",\"pubkey\":"@ + json_string(event.pubkey@)
        + ",\"created_at\":"@ + decimal(event.created_at as nat) + ",\"kind\":"@ + decimal(
        event.kind as nat,
    ) + ",\"tags\":"@ + json_tags(event.tags) + ",\"content\":"@ + json_string(event.content@)
        + ",\"sig\":"@ + json_string(event.sig@) + "}"@
}

/// A bundle as a JSON object: the version, then the events, with no
/// whitespace.
pub open spec fn json_bundle(bundle: Bundle) -> Seq<char> {
    "{\"version\":"@ + decimal(bundle.version as nat) + ",\"events\":"@ + json_events(
        bundle.events,
    ) + "}"@
}

/// Whether `bundle` is the bundle of the one text note that the key signs
/// for the content and time.
pub open spec fn is_note_bundle(bundle: Bundle, secret: Seq<u8>, created_at: u64, content: Seq<char>) -> bool {
    &&& bundle.version == 1
    &&& bundle.events@.len() == 1
    &&& is_signed_note(bundle.events@[0], secret, created_at, content)
}

/// One more item joined to a list.
proof fn lemma_joined_step(items: Seq<Seq<char>>, n: int)
    requires
        0 <= n < items.len(),
    ensures
        joined(items.subrange(0, n + 1)) == (if n == 0 {
            items[0]
        } else {
            joined(items.subrange(0, n)) + seq![','] + items[n]
        }),
{
    let next = items.subrange(0, n + 1);
    assert(next.drop_last() =~= items.subrange(0, n));
    assert(next.last() == items[n]);
}

fn write_tag(out: &mut String, tag: &Vec<String>)
    ensures
        final(out)@ == old(out)@ + json_tag(*tag),
{
    let ghost items = Seq::new(tag@.len(), |i: int| json_string(tag@[i]@));
    push_char(out, '[');
    let ghost start = out@;
    let mut i: usize = 0;
    while i < tag.len()
        invariant
            i <= tag@.len(),
            items == Seq::new(tag@.len(), |i: int| json_string(tag@[i]@)),
            start == old(out)@.push('['),
            out@ == start + joined(items.subrange(0, i as int)),
        decreases tag@.len() - i,
    {
        proof {
            lemma_joined_step(items, i as int);
        }
        if i > 0 {
            push_char(out, ',');
        }
        write_json_string(out, tag[i].as_str());
        proof {
            assert(out@ =~= start + joined(items.subrange(0, i + 1)));
        }
        i = i + 1;
    }
    push_char(out, ']');
    proof {
        assert(items.subrange(0, items.len() as int) =~= items);
        assert(out@ =~= old(out)@ + json_tag(*tag));
    }
}

fn write_tags(out: &mut String, tags: &Vec<Vec<String>>)
    ensures
        final(out)@ == old(out)@ + json_tags(*tags),
{
    let ghost items = Seq::new(tags@.len(), |i: int| json_tag(tags@[i]));
    push_char(out, '[');
    let ghost start = out@;
    let mut i: usize = 0;
    while i < tags.len()
        invariant
            i <= tags@.len(),
            items == Seq::new(tags@.len(), |i: int| json_tag(tags@[i])),
            start == old(out)@.push('['),
            out@ == start + joined(items.subrange(0, i as int)),
        decreases tags@.len() - i,
    {
        proof {
            lemma_joined_step(items, i as int);
        }
        if i > 0 {
            push_char(out, ',');
        }
        write_tag(out, &tags[i]);
        proof {
            assert(out@ =~= start + joined(items.subrange(0, i + 1)));
        }
        i = i + 1;
    }
    push_char(out, ']');
    proof {
        assert(items.subrange(0, items.len() as int) =~= items);
        assert(out@ =~= old(out)@ + json_tags(*tags));
    }
}

fn write_event(out: &mut String, event: &Event)
    ensures
        final(out)@ == old(out)@ + json_event(*event),
{
    out.append("{\"id\":");
    write_json_string(out, event.id.as_str());
    out.append(",\"pubkey\":");
    write_json_string(out, event.pubkey.as_str());
    out.append(",\"created_at\":");
    write_decimal(out, event.created_at);
    out.append(",\"kind\":");
    write_decimal(out, event.kind as u64);
    out.append(",\"tags\":");
    write_tags(out, &event.tags);
    out.append(",\"content\":");
    write_json_string(out, event.content.as_str());
    out.append(",\"sig\":");
    write_json_string(out, event.sig.as_str());
    out.append("}");
    proof {
        assert(out@ =~= old(out)@ + json_event(*event));
    }
}

/// The events as a JSON array of objects.
pub open spec fn json_events(events: Vec<Event>) -> Seq<char> {
    json_array(Seq::new(events@.len(), |i: int| json_event(events@[i])))
}

fn write_events(out: &mut String, events: &Vec<Event>)
    ensures
        final(out)@ == old(out)@ + json_events(*events),
{
    let ghost items = Seq::new(events@.len(), |i: int| json_event(events@[i]));
    push_char(out, '[');
    let ghost start = out@;
    let mut i: usize = 0;
    while i < events.len()
        invariant
            i <= events@.len(),
            items == Seq::new(events@.len(), |i: int| json_event(events@[i])),
            start == old(out)@.push('['),
            out@ == start + joined(items.subrange(0, i as int)),
        decreases events@.len() - i,
    {
        proof {
            lemma_joined_step(items, i as int);
        }
        if i > 0 {
            push_char(out, ',');
        }
        write_event(out, &events[i]);
        proof {
            assert(out@ =~= start + joined(items.subrange(0, i + 1)));
        }
        i = i + 1;
    }
    push_char(out, ']');
    proof {
        assert(items.subrange(0, items.len() as int) =~= items);
        assert(out@ =~= old(out)@ + json_events(*events));
    }
}

impl Bundle {
    /// The compact JSON text of the bundle.
    pub fn to_json(&self) -> (out: String)
        ensures
            out@ == json_bundle(*self),
    {
        let mut out = String::new();
        out.append("{\"version\":");
        write_decimal(&mut out, self.version as u64);
        out.append(",\"events\":");
        write_events(&mut out, &self.events);
        out.append("}");
        proof {
            assert(out@ =~= json_bundle(*self));
        }
        out
    }
}

/// Makes the bundle of one text note signed with the given key. The message
/// gets the suffix first. Fails with `NotUtf8` where cutting the message to
/// 5000 bytes splits a character, and with `BadSignature` where the
/// signature of the note does not verify.
pub fn bundle_with_key(content: &str, sk: &SecretKey, created_at: u64) -> (res: Result<
    Bundle,
    StegError,
>)
    ensures
        match res {
            Ok(bundle) => {
                &&& note_text(content@) is Ok
                &&& note_verifies(sk@, created_at, note_text(content@)->Ok_0)
                &&& is_note_bundle(bundle, sk@, created_at, note_text(content@)->Ok_0)
                &&& signature_holds(bundle.events@[0])
            },
            Err(e) => match note_text(content@) {
                Err(cut) => e == cut,
                Ok(text) => e == StegError::BadSignature && !note_verifies(sk@, created_at, text),
            },
        },
{
    let text = match ensure_stegstr_suffix(content) {
        Ok(text) => text,
        Err(e) => {
            return Err(e);
        },
    };
    let event = match create_kind1_event(text.as_str(), sk, created_at) {
        Ok(event) => event,
        Err(e) => {
            return Err(e);
        },
    };
    let mut events: Vec<Event> = Vec::new();
    events.push(event);
    Ok(Bundle { version: 1, events })
}

/// Makes the compact JSON bundle of one text note. With no key given, a
/// fresh one is drawn for this call and not revealed. Whatever key was
/// used, the result is the JSON of the note bundle under a valid key whose
/// signature verifies, and under the given key if there was one. Fails
/// with `NotUtf8` where cutting the message splits a character, and with
/// `BadSignature` only where the signature under the key used, a valid
/// one, does not verify.
pub fn build_bundle(content: &str, secret_key: Option<&SecretKey>, created_at: u64) -> (res: Result<
    String,
    StegError,
>)
    ensures
        match res {
            Ok(json) => note_text(content@) is Ok && exists|bundle: Bundle, key: Seq<u8>|
                {
                    &&& json@ == json_bundle(bundle)
                    &&& #[trigger] is_note_bundle(bundle, key, created_at, note_text(content@)->Ok_0)
                    &&& valid_secret_key(key)
                    &&& note_verifies(key, created_at, note_text(content@)->Ok_0)
                    &&& secret_key matches Some(given) ==> key == given@
                },
            Err(e) => match note_text(content@) {
                Err(cut) => e == cut,
                Ok(text) => e == StegError::BadSignature && match secret_key {
                    Some(given) => !note_verifies(given@, created_at, text),
                    None => exists|key: Seq<u8>|
                        valid_secret_key(key) && !#[trigger] note_verifies(key, created_at, text),
                },
            },
        },
{
    match secret_key {
        Some(given) => {
            let ghost key = given@;
            proof {
                use_type_invariant(given);
                given.lemma_is_valid();
            }
            match bundle_with_key(content, given, created_at) {
                Ok(bundle) => {
                    let json = bundle.to_json();
                    proof {
                        assert(is_note_bundle(bundle, key, created_at, note_text(content@)->Ok_0));
                    }
                    Ok(json)
                },
                Err(e) => Err(e),
            }
        },
        None => {
            let fresh = SecretKey::generate();
            let ghost key = fresh@;
            match bundle_with_key(content, &fresh, created_at) {
                Ok(bundle) => {
                    let json = bundle.to_json();
                    proof {
                        assert(is_note_bundle(bundle, key, created_at, note_text(content@)->Ok_0));
                    }
                    Ok(json)
                },
                Err(e) => Err(e),
            }
        },
    }
}

} // verus!
