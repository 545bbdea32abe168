//! The decisions of one producer connection: which host may be dialled, the stream URL
//! with its resume cursor, what follows each connection event, and what an ingested
//! commit asks of the archive.
use vstd::prelude::*;
use vstd::string::StringSliceAdditionalSpecFns;
use crate::cluster::append_bytes;
use crate::frame::{text_or_empty, utf8_text, RepoOp};
use crate::ledger::{is_unrecoverable, spec_unrecoverable, ConnectFailure};

verus! {

/// Whether a host name may be dialled: not empty, at most 128 bytes, with no space or
/// line feed.
pub open spec fn spec_valid_host(h: Seq<u8>) -> bool {
    0 < h.len() <= 128 && forall|i: int| 0 <= i < h.len() ==> #[trigger] h[i] != 0x20 && h[i] != 0x0a
}

/// Checks a host name before a worker dials it.
pub fn valid_host(host: &str) -> (r: bool)
    ensures
        r == spec_valid_host(host.spec_bytes()),
{
    let b = host.as_bytes();
    if b.len() == 0 || b.len() > 128 {
        return false;
    }
    let mut i: usize = 0;
    while i < b.len()
        invariant
            i <= b@.len(),
            b@ == host.spec_bytes(),
            forall|j: int| 0 <= j < i ==> #[trigger] b@[j] != 0x20 && b@[j] != 0x0a,
        decreases b@.len() - i,
    {
        if b[i] == 0x20 || b[i] == 0x0a {
            assert(!(b@[i as int] != 0x20 && b@[i as int] != 0x0a));
            return false;
        }
        i = i + 1;
    }
    true
}

/// The decimal digits of `n`.
pub open spec fn decimal(n: nat) -> Seq<u8>
    decreases n,
{
    if n < 10 {
        seq![(0x30 + n) as u8]
    } else {
        decimal(n / 10).push((0x30 + n % 10) as u8)
    }
}

/// Appends the decimal digits of `n`.
fn push_decimal(out: &mut Vec<u8>, n: u64)
    ensures
        final(out)@ == old(out)@ + decimal(n as nat),
    decreases n,
{
    if n < 10 {
        out.push(0x30 + n as u8);
        assert(final(out)@ =~= old(out)@ + decimal(n as nat));
    } else {
        push_decimal(out, n / 10);
        out.push(0x30 + (n % 10) as u8);
        assert(final(out)@ =~= old(out)@ + decimal(n as nat));
    }
}

/// `wss://`
pub open spec fn wss_lit() -> Seq<u8> {
    seq![0x77u8, 0x73, 0x73, 0x3a, 0x2f, 0x2f]
}

/// `/xrpc/com.atproto.sync.subscribeRepos`
pub open spec fn subscribe_lit() -> Seq<u8> {
    seq![
        0x2fu8, 0x78, 0x72, 0x70, 0x63, 0x2f, 0x63, 0x6f, 0x6d, 0x2e, 0x61, 0x74, 0x70, 0x72, 0x6f, 0x74, 0x6f, 0x2e,
        0x73, 0x79, 0x6e, 0x63, 0x2e, 0x73, 0x75, 0x62, 0x73, 0x63, 0x72, 0x69, 0x62, 0x65, 0x52, 0x65, 0x70, 0x6f,
        0x73,
    ]
}

/// `?cursor=`
pub open spec fn cursor_lit() -> Seq<u8> {
    seq![0x3fu8, 0x63, 0x75, 0x72, 0x73, 0x6f, 0x72, 0x3d]
}

/// The bytes of the stream URL of `host`, resuming after `cursor` when there is one.
pub open spec fn stream_url_bytes(host: Seq<u8>, cursor: Option<u64>) -> Seq<u8> {
    wss_lit() + host + subscribe_lit() + match cursor {
        Some(c) => cursor_lit() + decimal(c as nat),
        None => Seq::empty(),
    }
}

/// The firehose stream URL of `host`, with `?cursor=` and the resume cursor if known.
pub fn stream_url(host: &str, cursor: Option<u64>) -> (r: String)
    ensures
        r@ == utf8_text(stream_url_bytes(host.spec_bytes(), cursor)),
{
    let wss: [u8; 6] = [0x77, 0x73, 0x73, 0x3a, 0x2f, 0x2f];
    let sub: [u8; 37] = [
        0x2f, 0x78, 0x72, 0x70, 0x63, 0x2f, 0x63, 0x6f, 0x6d, 0x2e, 0x61, 0x74, 0x70, 0x72, 0x6f, 0x74, 0x6f, 0x2e, 0x73,
        0x79, 0x6e, 0x63, 0x2e, 0x73, 0x75, 0x62, 0x73, 0x63, 0x72, 0x69, 0x62, 0x65, 0x52, 0x65, 0x70, 0x6f, 0x73,
    ];
    let cur: [u8; 8] = [0x3f, 0x63, 0x75, 0x72, 0x73, 0x6f, 0x72, 0x3d];
    assert(wss@ =~= wss_lit() && sub@ =~= subscribe_lit() && cur@ =~= cursor_lit());
    let mut out: Vec<u8> = Vec::new();
    append_bytes(&mut out, wss.as_slice());
    append_bytes(&mut out, host.as_bytes());
    append_bytes(&mut out, sub.as_slice());
    if let Some(c) = cursor {
        append_bytes(&mut out, cur.as_slice());
        push_decimal(&mut out, c);
    }
    assert(out@ =~= stream_url_bytes(host.spec_bytes(), cursor));
    text_or_empty(out.as_slice())
}

/// What happened on a producer connection.
pub enum WorkerEvent {
    /// The stream opened.
    Connected,
    /// A binary frame arrived.
    Frame,
    /// No frame arrived within the idle period.
    Idle,
    /// Reading the open stream failed.
    ReadFailed,
    /// Opening the stream failed.
    ConnectFailed(ConnectFailure),
}

/// What the worker does next.
#[derive(Clone, Copy, Debug, PartialEq, Eq, Structural)]
pub enum WorkerAction {
    /// Publish the connection; reset the endpoint's failure count.
    Publish,
    /// Forward the frame to the verifier.
    Forward,
    /// Send a keepalive ping.
    Ping,
    /// Record the drop and reconnect after 5 seconds.
    ReconnectSoon,
    /// Record the failure (penalty) and retry after 30 seconds.
    RetryLater,
    /// Block the endpoint for good and stop.
    Blacklist,
}

/// The worker's decision on a connection event.
/// `fails` is the endpoint's count of consecutive failures before this event.
pub fn worker_step(ev: &WorkerEvent, fails: u32) -> (r: WorkerAction)
    ensures
        r == match *ev {
            WorkerEvent::Connected => WorkerAction::Publish,
            WorkerEvent::Frame => WorkerAction::Forward,
            WorkerEvent::Idle => WorkerAction::Ping,
            WorkerEvent::ReadFailed => WorkerAction::ReconnectSoon,
            WorkerEvent::ConnectFailed(f) => if spec_unrecoverable(f, fails) {
                WorkerAction::Blacklist
            } else {
                WorkerAction::RetryLater
            },
        },
{
    match ev {
        WorkerEvent::Connected => WorkerAction::Publish,
        WorkerEvent::Frame => WorkerAction::Forward,
        WorkerEvent::Idle => WorkerAction::Ping,
        WorkerEvent::ReadFailed => WorkerAction::ReconnectSoon,
        WorkerEvent::ConnectFailed(f) => if is_unrecoverable(f, fails) {
            WorkerAction::Blacklist
        } else {
            WorkerAction::RetryLater
        },
    }
}

/// `delete`
pub open spec fn delete_lit() -> Seq<char> {
    seq!['d', 'e', 'l', 'e', 't', 'e']
}

/// The paths of the operations whose action is `delete`, in order.
pub open spec fn delete_paths(ops: Seq<RepoOp>) -> Seq<Seq<char>>
    decreases ops.len(),
{
    if ops.len() == 0 {
        Seq::empty()
    } else if ops.last().action@ == delete_lit() {
        delete_paths(ops.drop_last()).push(ops.last().path@)
    } else {
        delete_paths(ops.drop_last())
    }
}

/// The path of the first operation that is not a delete, or nothing.
pub open spec fn first_write_path(ops: Seq<RepoOp>) -> Seq<char>
    decreases ops.len(),
{
    if ops.len() == 0 {
        Seq::empty()
    } else if ops[0].action@ != delete_lit() {
        ops[0].path@
    } else {
        first_write_path(ops.subrange(1, ops.len() as int))
    }
}

fn is_delete(a: &String) -> (r: bool)
    ensures
        r == (a@ == delete_lit()),
{
    let b = a.as_str().as_bytes();
    let lit: [u8; 6] = [0x64, 0x65, 0x6c, 0x65, 0x74, 0x65];
    let r = crate::car::bytes_eq(b, lit.as_slice());
    proof {
        vstd::utf8::encode_utf8_decode_utf8(a@);
        vstd::utf8::encode_utf8_decode_utf8(delete_lit());
        assert(vstd::utf8::is_ascii_chars(delete_lit()));
        vstd::utf8::is_ascii_chars_encode_utf8(delete_lit());
        assert(vstd::utf8::encode_utf8(delete_lit()) =~= lit@);
    }
    r
}

/// What a commit asks of the archive: the paths it deletes, in order, and the path under
/// which its message is archived (that of its first other operation, or empty).
pub fn archive_plan(ops: &Vec<RepoOp>) -> (r: (Vec<String>, String))
    ensures
        r.0@.len() == delete_paths(ops@).len(),
        forall|i: int| 0 <= i < r.0@.len() ==> (#[trigger] r.0@[i])@ == delete_paths(ops@)[i],
        r.1@ == first_write_path(ops@),
{
    let mut deletes: Vec<String> = Vec::new();
    let mut first: Option<usize> = None;
    let mut i: usize = 0;
    while i < ops.len()
        invariant
            i <= ops@.len(),
            deletes@.len() == delete_paths(ops@.take(i as int)).len(),
            forall|k: int| 0 <= k < deletes@.len() ==> (#[trigger] deletes@[k])@ == delete_paths(ops@.take(i as int))[k],
            match first {
                None => forall|k: int| 0 <= k < i ==> (#[trigger] ops@[k]).action@ == delete_lit(),
                Some(f) => f < i && ops@[f as int].action@ != delete_lit() && forall|k: int| 0 <= k < f ==> (#[trigger] ops@[k]).action@ == delete_lit(),
            },
        decreases ops@.len() - i,
    {
        assert(ops@.take(i + 1).drop_last() =~= ops@.take(i as int));
        if is_delete(&ops[i].action) {
            let p = ops[i].path.clone();
            deletes.push(p);
        } else if first.is_none() {
            first = Some(i);
        }
        i = i + 1;
    }
    assert(ops@.take(ops@.len() as int) =~= ops@);
    let path = match first {
        Some(f) => {
            proof {
                lemma_first_write(ops@, f as int);
            }
            ops[f].path.clone()
        },
        None => {
            proof {
                lemma_no_write(ops@);
            }
            String::new()
        },
    };
    (deletes, path)
}

proof fn lemma_first_write(ops: Seq<RepoOp>, f: int)
    requires
        0 <= f < ops.len(),
        ops[f].action@ != delete_lit(),
        forall|k: int| 0 <= k < f ==> (#[trigger] ops[k]).action@ == delete_lit(),
    ensures
        first_write_path(ops) == ops[f].path@,
    decreases f,
{
    if f > 0 {
        let rest = ops.subrange(1, ops.len() as int);
        assert forall|k: int| 0 <= k < f - 1 implies (#[trigger] rest[k]).action@ == delete_lit() by {
            assert(rest[k] == ops[k + 1]);
        }
        lemma_first_write(rest, f - 1);
    }
}

proof fn lemma_no_write(ops: Seq<RepoOp>)
    requires
        forall|k: int| 0 <= k < ops.len() ==> (#[trigger] ops[k]).action@ == delete_lit(),
    ensures
        first_write_path(ops) == Seq::<char>::empty(),
    decreases ops.len(),
{
    if ops.len() > 0 {
        let rest = ops.subrange(1, ops.len() as int);
        assert forall|k: int| 0 <= k < rest.len() implies (#[trigger] rest[k]).action@ == delete_lit() by {
            assert(rest[k] == ops[k + 1]);
        }
        lemma_no_write(rest);
    }
}

/// Whether a fresh resolution changed the author's key: it found a key, and not the one
/// that the failed verification used (only then is verifying again worthwhile).
pub fn after_reresolve(cached: ([u8; 33], u8), fresh: Option<([u8; 33], u8)>) -> (r: bool)
    ensures
        r == (fresh matches Some(k) && (k.0@ != cached.0@ || k.1 != cached.1)),
{
    match fresh {
        None => false,
        Some((k, t)) => !crate::car::bytes_eq(k.as_slice(), cached.0.as_slice()) || t != cached.1,
    }
}

/// Where one frame stands on its way to the archive: the key it is checked with, and
/// whether the key was already resolved again after a failed check.
pub struct FrameState {
    pub key: Option<([u8; 33], u8)>,
    pub retried: bool,
}

/// What happened to a frame.
pub enum FrameEvent {
    /// The identity cache answered (or missed) for the frame's author.
    CacheLookup(Option<([u8; 33], u8)>),
    /// The key directory answered (or failed) for the frame's author.
    Resolved(Option<([u8; 33], u8)>),
    /// The signature check with the current key ended.
    Verified(bool),
}

/// What to do next with a frame.
pub enum FramePlan {
    /// Fetch the author's key from the directory.
    Resolve,
    /// Check the signature with this key.
    Verify([u8; 33], u8),
    /// Store the frame in the archive.
    Archive,
    /// Record the frame as invalid; do not archive it.
    Invalid,
    /// Record the frame as unverifiable; do not archive it.
    Unverifiable,
}

/// A fresh frame: no key yet, not retried.
pub fn frame_start() -> (r: FrameState)
    ensures
        r.key is None && !r.retried,
{
    FrameState { key: None, retried: false }
}

/// The next step for a frame: a cache hit is verified, a miss is resolved; a key that
/// cannot be resolved makes the frame unverifiable (invalid once it failed a check); a
/// failed check resolves the key again once, and verifies again only with a changed
/// key; a passed check archives the frame.
pub fn frame_step(st: &mut FrameState, ev: FrameEvent) -> (r: FramePlan)
    ensures
        match ev {
            FrameEvent::CacheLookup(None) => r matches FramePlan::Resolve && *final(st) == *old(st),
            FrameEvent::CacheLookup(Some(k)) => r matches FramePlan::Verify(pk, t) && pk == k.0 && t == k.1
                && final(st).key == Some(k) && final(st).retried == old(st).retried,
            FrameEvent::Resolved(None) => if old(st).retried {
                r matches FramePlan::Invalid
            } else {
                r matches FramePlan::Unverifiable
            },
            FrameEvent::Resolved(Some(k)) => if old(st).retried && old(st).key is Some && old(st).key.unwrap().0@ == k.0@
                && old(st).key.unwrap().1 == k.1 {
                r matches FramePlan::Invalid
            } else {
                r matches FramePlan::Verify(pk, t) && pk == k.0 && t == k.1 && final(st).key == Some(k)
            },
            FrameEvent::Verified(true) => r matches FramePlan::Archive,
            FrameEvent::Verified(false) => if old(st).retried {
                r matches FramePlan::Invalid
            } else {
                r matches FramePlan::Resolve && final(st).retried
            },
        },
{
    match ev {
        FrameEvent::CacheLookup(None) => FramePlan::Resolve,
        FrameEvent::CacheLookup(Some(k)) => {
            st.key = Some(k);
            FramePlan::Verify(k.0, k.1)
        },
        FrameEvent::Resolved(None) => if st.retried {
            FramePlan::Invalid
        } else {
            FramePlan::Unverifiable
        },
        FrameEvent::Resolved(Some(k)) => {
            let unchanged = match st.key {
                Some(old_key) => st.retried && !after_reresolve(old_key, Some(k)),
                None => false,
            };
            if unchanged {
                FramePlan::Invalid
            } else {
                st.key = Some(k);
                FramePlan::Verify(k.0, k.1)
            }
        },
        FrameEvent::Verified(ok) => if ok {
            FramePlan::Archive
        } else if st.retried {
            FramePlan::Invalid
        } else {
            st.retried = true;
            FramePlan::Resolve
        },
    }
}

} // verus!
