//! The fetch client: one request in flight at a time, its reply held in
//! a single-slot mailbox, the fetched node merged into the cache and
//! scanned for further dependencies.
//!
//! The connection carries no correlation identifiers, so the only sound
//! discipline is single flight: a request is sent, every inbound
//! message until the terminal reply belongs to it, and a second request
//! before the first is drained is refused. The caller owns the outside
//! work — sending the frame, sleeping between polls, decoding inbound
//! payloads — and drives this state machine with it.

use vstd::prelude::*;
use vstd::pervasive::unreached;

use crate::errors::FetchError;
use crate::model::{lemma_merge_places, merged, sub_node, NodeModel};
use crate::node::AssetNode;
use crate::path::{path_ok, AssetPath};
use crate::protocol::{
    classify_text, encode_request, remote_text, request_wire, spec_classify, strip_error_marker,
    InboundKind,
};
use crate::scan::{deps_of, path_views, paths_distinct, paths_wf, scan_dependencies, shape_ok};
use crate::tree::AssetTree;

verus! {

/// The reply slot for the one outstanding request. Written by the
/// inbound-message handler, read and reset by the poller.
#[derive(Debug)]
pub enum WSResponse {
    /// No reply has arrived yet.
    Empty,
    /// The reply decoded to a node subtree.
    Loaded(AssetNode),
    /// The remote side reported an error.
    Failed(String),
    /// An informational message arrived; it answers nothing.
    Notice(String),
}

/// Mathematical image of the reply slot.
pub ghost enum MailboxModel {
    Empty,
    Loaded(NodeModel),
    Failed(Seq<char>),
    Notice(Seq<char>),
}

impl View for WSResponse {
    type V = MailboxModel;

    open spec fn view(&self) -> MailboxModel {
        match self {
            WSResponse::Empty => MailboxModel::Empty,
            WSResponse::Loaded(n) => MailboxModel::Loaded(n@),
            WSResponse::Failed(s) => MailboxModel::Failed(s@),
            WSResponse::Notice(s) => MailboxModel::Notice(s@),
        }
    }
}

/// Mathematical image of the whole client.
pub ghost struct ClientModel {
    pub tree: NodeModel,
    pub mailbox: MailboxModel,
    pub in_flight: Option<Seq<Seq<char>>>,
}

/// What `begin_fetch` decided.
#[derive(Debug)]
pub enum BeginFetch {
    /// The asset already stands in the cache; nothing need be sent.
    AlreadyCached,
    /// The frame to send on the connection; the reply is now awaited.
    Request(String),
    /// A request is already in flight; sending another would make its
    /// reply unattributable.
    Rejected,
}

/// What one poll of the mailbox found.
#[derive(Debug)]
pub enum PollOutcome {
    /// No reply yet: yield, wait, poll again.
    Pending,
    /// An informational message was consumed; the reply is still owed.
    Notice(String),
    /// The request cycle is over: on success, the dependency paths
    /// discovered in the merged node.
    Done(Result<Vec<AssetPath>, FetchError>),
}

/// The resolver's state: the shared cache, the reply slot, and the
/// path of the outstanding request, if any.
pub struct FetchClient {
    tree: AssetTree,
    mailbox: WSResponse,
    in_flight: Option<AssetPath>,
}

impl View for FetchClient {
    type V = ClientModel;

    closed spec fn view(&self) -> ClientModel {
        ClientModel {
            tree: self.tree@,
            mailbox: self.mailbox@,
            in_flight: match self.in_flight {
                Some(p) => Some(p@),
                None => None,
            },
        }
    }
}

impl FetchClient {
    /// The client is sound: the cache is well-formed, an outstanding
    /// path is well-formed and names an asset at least three segments
    /// deep, the mailbox is only written while a request is out, and a
    /// loaded reply is itself well-formed.
    pub closed spec fn wf(&self) -> bool {
        &&& self.tree.wf()
        &&& (self.in_flight is None ==> self.mailbox is Empty)
        &&& (match self.in_flight {
            Some(p) => path_ok(p@) && p@.len() >= 3,
            None => true,
        })
        &&& (match self.mailbox {
            WSResponse::Loaded(n) => n.wf(),
            _ => true,
        })
    }

    /// A fresh client over an empty cache, with nothing in flight.
    pub fn new() -> (r: FetchClient)
        ensures
            r.wf(),
            r@.tree == NodeModel::blank(),
            r@.mailbox is Empty,
            r@.in_flight is None,
    {
        FetchClient { tree: AssetTree::new(), mailbox: WSResponse::Empty, in_flight: None }
    }

    /// Read access to the cache for the consumers that only look
    /// assets up.
    pub fn tree(&self) -> (r: &AssetTree)
        requires
            self.wf(),
        ensures
            r@ == self@.tree,
            r.wf(),
    {
        &self.tree
    }

    /// Starts one fetch cycle. With a request already in flight the
    /// fetch is refused; with the asset already cached nothing is sent;
    /// otherwise the returned frame must be put on the connection and
    /// the reply awaited through [`FetchClient::poll`].
    pub fn begin_fetch(&mut self, path: &AssetPath) -> (r: BeginFetch)
        requires
            old(self).wf(),
            path.wf(),
            path@.len() >= 3,
        ensures
            final(self).wf(),
            final(self)@.tree == old(self)@.tree,
            match r {
                BeginFetch::Rejected => old(self)@.in_flight is Some && final(self)@ == old(self)@,
                BeginFetch::AlreadyCached => old(self)@.in_flight is None && sub_node(
                    old(self)@.tree,
                    path@.take(3),
                ) is Some && final(self)@ == old(self)@,
                BeginFetch::Request(msg) => old(self)@.in_flight is None && sub_node(
                    old(self)@.tree,
                    path@.take(3),
                ) is None && msg@ == request_wire(path@) && final(self)@.in_flight == Some(path@)
                    && final(self)@.mailbox is Empty,
            },
    {
        if self.in_flight.is_some() {
            return BeginFetch::Rejected;
        }
        if self.tree.contains_prefix(path) {
            return BeginFetch::AlreadyCached;
        }
        let msg = encode_request(path);
        self.in_flight = Some(path.duplicate());
        BeginFetch::Request(msg)
    }

    /// To call when the transport refused the request frame: the cycle
    /// is abandoned before any reply can arrive.
    pub fn transport_failed(&mut self) -> (e: FetchError)
        requires
            old(self).wf(),
            old(self)@.in_flight is Some,
        ensures
            final(self).wf(),
            e == FetchError::Transport,
            final(self)@.tree == old(self)@.tree,
            final(self)@.in_flight is None,
            final(self)@.mailbox is Empty,
    {
        self.in_flight = None;
        self.mailbox = WSResponse::Empty;
        FetchError::Transport
    }

    /// The inbound handler delivers a decoded node subtree. Under the
    /// single-flight discipline it can only answer the outstanding
    /// request.
    pub fn deliver_node(&mut self, node: AssetNode)
        requires
            old(self).wf(),
            node.wf(),
            old(self)@.in_flight is Some,
        ensures
            final(self).wf(),
            final(self)@.tree == old(self)@.tree,
            final(self)@.in_flight == old(self)@.in_flight,
            final(self)@.mailbox == MailboxModel::Loaded(node@),
    {
        self.mailbox = WSResponse::Loaded(node);
    }

    /// The inbound handler delivers a text message: an error report
    /// fails the outstanding request, anything else is informational.
    /// A text carrying an encoded node must be decoded and handed to
    /// [`FetchClient::deliver_node`] instead.
    pub fn deliver_text(&mut self, text: String)
        requires
            old(self).wf(),
            old(self)@.in_flight is Some,
            spec_classify(text@) != InboundKind::NodePayload,
        ensures
            final(self).wf(),
            final(self)@.tree == old(self)@.tree,
            final(self)@.in_flight == old(self)@.in_flight,
            final(self)@.mailbox == (if spec_classify(text@) == InboundKind::ErrorText {
                MailboxModel::Failed(text@)
            } else {
                MailboxModel::Notice(text@)
            }),
    {
        match classify_text(text.as_str()) {
            InboundKind::ErrorText => {
                self.mailbox = WSResponse::Failed(text);
            },
            _ => {
                self.mailbox = WSResponse::Notice(text);
            },
        }
    }

    /// Inspects the mailbox once. An empty mailbox asks for another
    /// poll after a pause; an informational message is consumed without
    /// ending the wait; an error report ends the cycle with
    /// [`FetchError::Remote`], the cache untouched; a loaded node is
    /// merged into the cache at the outstanding path and the merged
    /// node is scanned, so that the cycle ends with the discovered
    /// dependency paths, or with [`FetchError::DataShape`] when the
    /// merged node cannot be read.
    pub fn poll(&mut self) -> (r: PollOutcome)
        requires
            old(self).wf(),
            old(self)@.in_flight is Some,
        ensures
            final(self).wf(),
            match r {
                PollOutcome::Pending => old(self)@.mailbox is Empty && final(self)@ == old(self)@,
                PollOutcome::Notice(m) => old(self)@.mailbox == MailboxModel::Notice(m@) && final(self)@.mailbox is Empty && final(self)@.in_flight == old(self)@.in_flight && final(self)@.tree == old(self)@.tree,
                PollOutcome::Done(res) => final(self)@.mailbox is Empty && final(self)@.in_flight is None && (old(self)@.in_flight matches Some(path) && (match res {
                    Ok(deps) => old(self)@.mailbox matches MailboxModel::Loaded(nm) && final(self)@.tree == merged(old(self)@.tree, path, nm) && (sub_node(
                        final(self)@.tree,
                        path,
                    ) matches Some(t) && shape_ok(t) && paths_distinct(deps@) && paths_wf(deps@)
                        && path_views(deps@) == deps_of(t)),
                    Err(e) => (match e {
                        FetchError::Remote(msg) => old(self)@.mailbox matches MailboxModel::Failed(txt) && msg@ == remote_text(txt)
                            && final(self)@.tree == old(self)@.tree,
                        FetchError::DataShape => old(self)@.mailbox matches MailboxModel::Loaded(
                            nm,
                        ) && final(self)@.tree == merged(old(self)@.tree, path, nm) && (sub_node(
                            final(self)@.tree,
                            path,
                        ) matches Some(t) && !shape_ok(t)),
                        _ => false,
                    }),
                })),
            },
    {
        let mut state = WSResponse::Empty;
        core::mem::swap(&mut state, &mut self.mailbox);
        match state {
            WSResponse::Empty => PollOutcome::Pending,
            WSResponse::Notice(m) => PollOutcome::Notice(m),
            WSResponse::Failed(txt) => {
                let msg = strip_error_marker(txt.as_str());
                self.in_flight = None;
                PollOutcome::Done(Err(FetchError::Remote(msg)))
            },
            WSResponse::Loaded(node) => {
                let ghost nm = node@;
                let ghost old_tree = self.tree@;
                let mut taken: Option<AssetPath> = None;
                core::mem::swap(&mut taken, &mut self.in_flight);
                let path = match taken {
                    Some(p) => p,
                    None => unreached(),
                };
                let ghost pv = path@;
                self.tree.merge(&path, node);
                proof {
                    assert(pv.take(pv.len() as int) =~= pv);
                    lemma_merge_places(old_tree, pv, nm, pv);
                }
                let merged_node = match self.tree.lookup(&path) {
                    Some(n) => n,
                    None => unreached(),
                };
                match scan_dependencies(merged_node) {
                    Ok(deps) => PollOutcome::Done(Ok(deps)),
                    Err(e) => PollOutcome::Done(Err(e)),
                }
            },
        }
    }
}

/// The orchestration of one fetch-with-dependencies run: the root is
/// fetched first, then every dependency it revealed, sequentially and
/// each independently fallible.
pub struct FetchPlan {
    pending: Vec<AssetPath>,
}

impl View for FetchPlan {
    type V = Seq<AssetPath>;

    closed spec fn view(&self) -> Seq<AssetPath> {
        self.pending@
    }
}

impl FetchPlan {
    /// A plan over the dependency paths one fetch discovered.
    pub fn new(deps: Vec<AssetPath>) -> (r: FetchPlan)
        ensures
            r@ == deps@,
    {
        FetchPlan { pending: deps }
    }

    /// The next path to fetch, in discovery order; a failure of one
    /// fetch must not keep the caller from asking for the next.
    pub fn next(&mut self) -> (r: Option<AssetPath>)
        ensures
            match r {
                Some(p) => old(self)@.len() > 0 && p == old(self)@[0] && final(self)@ == old(self)@.drop_first(),
                None => old(self)@.len() == 0 && final(self)@ == old(self)@,
            },
    {
        if self.pending.len() == 0 {
            None
        } else {
            Some(self.pending.remove(0))
        }
    }

    /// Whether every discovered dependency has been handed out.
    pub fn is_done(&self) -> (r: bool)
        ensures
            r == (self@.len() == 0),
    {
        self.pending.len() == 0
    }
}

} // verus!
