//! What the sidecar client sends, and when.

use vstd::prelude::*;
use vstd::string::*;

use super::config::SidecarConfig;
use super::types::{CheckTxRequest, CheckTxResponse, ConfirmIncludedRequest};
use crate::ids::{copy_ids, id_views};
use crate::outside::address_hex;
use crate::primitives::Address;
use crate::text::{hex_text, prefixed, trim_end, trim_end_char};

verus! {

/// Sidecar route that confirms included XT instance IDs.
pub const CONFIRM_PATH: &'static str = "/ethera/confirm";

/// Sidecar route that authorizes a transaction before pool admission.
pub const CHECK_TX_PATH: &'static str = "/permissions/check-tx";

/// Backoff between confirm retries, in milliseconds.
pub const CONFIRM_RETRY_BACKOFF_MS: u64 = 25;

/// The URL of `path` at `endpoint`.
pub open spec fn url_of(endpoint: Seq<char>, path: Seq<char>) -> Seq<char> {
    trim_end(endpoint, '/') + path
}

/// The URL of `path` at `endpoint`, whose trailing slashes are dropped.
pub fn endpoint_url(endpoint: &str, path: &str) -> (res: String)
    ensures
        res@ == url_of(endpoint@, path@),
{
    trim_end_char(endpoint, '/').to_owned().concat(path)
}

/// What to do about a transaction before it may enter the pool.
#[derive(Debug, Clone)]
pub enum CheckTx {
    /// The verdict is known.
    Decided(CheckTxResponse),
    /// The sidecar has to be asked, once, by a POST of `request` to `url`.
    Ask { url: String, request: CheckTxRequest },
}

/// Confirms included XT instance IDs back to the sidecar, or asks it for
/// permissions.
#[derive(Debug, Clone)]
pub struct SidecarClient {
    confirms: bool,
    check_url: Option<String>,
}

impl SidecarClient {
    /// The client passes included instances on.
    pub closed spec fn confirms(&self) -> bool {
        self.confirms
    }

    /// Where the client asks for permissions, if it does.
    pub closed spec fn check_url(&self) -> Option<Seq<char>> {
        match self.check_url {
            Some(url) => Some(url@),
            None => None,
        }
    }

    /// A client that confirms included instances, if an endpoint is set.
    pub fn new(config: SidecarConfig) -> (res: Self)
        ensures
            res.confirms() == config.enabled(),
            res.confirms() == (config.endpoint@.len() > 0),
            res.check_url() is None,
    {
        SidecarClient { confirms: config.is_enabled(), check_url: None }
    }

    /// A check-only client for gating transaction admission. Returns `None`
    /// when permission enforcement is disabled or no endpoint is set, so
    /// callers skip the check entirely.
    pub fn for_permissions(config: &SidecarConfig) -> (res: Option<Self>)
        ensures
            res is Some <==> config.enabled() && config.permissions_enabled,
            res is Some <==> config.endpoint@.len() > 0 && config.permissions_enabled,
            res matches Some(client) ==> !client.confirms() && client.check_url() == Some(
                url_of(config.endpoint@, CHECK_TX_PATH@),
            ),
            res matches Some(client) ==> client.check_url() == Some(
                trim_end(config.endpoint@, '/') + "/permissions/check-tx"@,
            ),
    {
        if !config.is_enabled() || !config.permissions_enabled {
            return None;
        }
        Some(
            SidecarClient {
                confirms: false,
                check_url: Some(endpoint_url(config.endpoint.as_str(), CHECK_TX_PATH)),
            },
        )
    }

    /// How to find out whether `from` may submit a transaction with the given
    /// classification: a client without a permission endpoint allows it.
    pub fn check_tx(&self, from: Address, is_create: bool, has_value: bool) -> (res: CheckTx)
        ensures
            match self.check_url() {
                Some(at) => res matches CheckTx::Ask { url, request } && url@ == at
                    && request.from@ == prefixed(hex_text(from@)) && request.is_create == is_create
                    && request.has_value == has_value,
                None => res matches CheckTx::Decided(response) && response.allowed
                    && response.reason is None && response.config_version is None,
            },
    {
        match &self.check_url {
            Some(url) => CheckTx::Ask {
                url: url.clone(),
                request: CheckTxRequest { from: address_hex(&from), is_create, has_value },
            },
            None => CheckTx::Decided(
                CheckTxResponse { allowed: true, reason: None, config_version: None },
            ),
        }
    }

    /// Whether the client confirms included instances.
    pub fn is_enabled(&self) -> (res: bool)
        ensures
            res == self.confirms(),
    {
        self.confirms
    }

    /// What to queue for confirmation: nothing, if there are no instances or
    /// the client does not confirm.
    pub fn confirm_included(&self, instance_ids: Vec<String>) -> (res: Option<Vec<String>>)
        ensures
            res == (if self.confirms() && instance_ids@.len() > 0 {
                Some(instance_ids)
            } else {
                None
            }),
    {
        if instance_ids.is_empty() {
            return None;
        }
        if self.confirms {
            Some(instance_ids)
        } else {
            None
        }
    }
}

/// What the confirm worker is doing.
#[derive(Debug, Clone, Copy, PartialEq, Eq, Structural)]
pub enum ConfirmPhase {
    /// Waiting for instances to be queued.
    Waiting,
    /// Collecting what else is queued already.
    Collecting,
    /// Posting the batch, after `attempt` failures.
    Posting { attempt: u32 },
    /// Pausing after a failure, `attempt` of which came before it.
    Pausing { attempt: u32 },
    /// Done: nothing can be queued any more.
    Stopped,
}

/// What happened to the confirm worker.
#[derive(Debug)]
pub enum ConfirmEvent {
    /// Instances came out of the queue.
    Received(Vec<String>),
    /// The queue is empty for now.
    Drained,
    /// The queue is empty and closed.
    Closed,
    /// The sidecar accepted the batch.
    Posted,
    /// The request failed, or the sidecar answered with an error status.
    Failed,
    /// The pause is over.
    Paused,
}

/// What the confirm worker needs done next.
#[derive(Debug)]
pub enum ConfirmAction {
    /// Wait for the queue.
    Receive,
    /// Look into the queue without waiting.
    TryReceive,
    /// POST `request` to `url`.
    Post { url: String, request: ConfirmIncludedRequest },
    /// Pause for so many milliseconds.
    Pause(u64),
    /// Nothing: the worker is done.
    Stop,
}

/// The state of the confirm worker.
#[verifier::ext_equal]
pub struct WorkerView {
    pub url: Seq<char>,
    pub max_retries: u32,
    pub phase: ConfirmPhase,
    /// The instances that were received and not yet confirmed, in order.
    pub batch: Seq<Seq<char>>,
    /// The queue has closed, and what was left is having its last round.
    pub last_round: bool,
}

/// What happened to the confirm worker.
pub enum EventView {
    Received(Seq<Seq<char>>),
    Drained,
    Closed,
    Posted,
    Failed,
    Paused,
}

impl View for ConfirmEvent {
    type V = EventView;

    open spec fn view(&self) -> EventView {
        match self {
            ConfirmEvent::Received(ids) => EventView::Received(id_views(ids@)),
            ConfirmEvent::Drained => EventView::Drained,
            ConfirmEvent::Closed => EventView::Closed,
            ConfirmEvent::Posted => EventView::Posted,
            ConfirmEvent::Failed => EventView::Failed,
            ConfirmEvent::Paused => EventView::Paused,
        }
    }
}

/// The worker after an event. A batch is posted up to `max_retries` more times
/// after a failure, with a pause before each. If it still fails, its instances
/// stay queued and go out in front of those that are received next. When the
/// queue closes, instances that are still queued have one last round. An event
/// that does not belong to the phase changes nothing.
pub open spec fn stepped(w: WorkerView, event: EventView) -> WorkerView {
    match (w.phase, event) {
        (ConfirmPhase::Waiting, EventView::Received(ids)) => WorkerView {
            phase: ConfirmPhase::Collecting,
            batch: w.batch + ids,
            ..w
        },
        (ConfirmPhase::Waiting, EventView::Closed) => if w.batch.len() == 0 || w.last_round {
            WorkerView { phase: ConfirmPhase::Stopped, ..w }
        } else {
            WorkerView { phase: ConfirmPhase::Posting { attempt: 0 }, last_round: true, ..w }
        },
        (ConfirmPhase::Collecting, EventView::Received(ids)) => WorkerView {
            batch: w.batch + ids,
            ..w
        },
        (ConfirmPhase::Collecting, EventView::Drained) => WorkerView {
            phase: ConfirmPhase::Posting { attempt: 0 },
            ..w
        },
        (ConfirmPhase::Collecting, EventView::Closed) => WorkerView {
            phase: ConfirmPhase::Posting { attempt: 0 },
            ..w
        },
        (ConfirmPhase::Posting { attempt }, EventView::Posted) => WorkerView {
            phase: ConfirmPhase::Waiting,
            batch: Seq::empty(),
            ..w
        },
        (ConfirmPhase::Posting { attempt }, EventView::Failed) => WorkerView {
            phase: if attempt < w.max_retries {
                ConfirmPhase::Pausing { attempt }
            } else {
                ConfirmPhase::Waiting
            },
            ..w
        },
        (ConfirmPhase::Pausing { attempt }, EventView::Paused) => WorkerView {
            phase: ConfirmPhase::Posting { attempt: (attempt + 1) as u32 },
            ..w
        },
        _ => w,
    }
}

/// Batches included instances and confirms them to the sidecar.
#[derive(Debug)]
pub struct ConfirmWorker {
    url: String,
    max_retries: u32,
    phase: ConfirmPhase,
    batch: Vec<String>,
    last_round: bool,
}

impl View for ConfirmWorker {
    type V = WorkerView;

    closed spec fn view(&self) -> WorkerView {
        WorkerView {
            url: self.url@,
            max_retries: self.max_retries,
            phase: self.phase,
            batch: id_views(self.batch@),
            last_round: self.last_round,
        }
    }
}

impl ConfirmWorker {
    /// The number of failures stays within the retries.
    pub closed spec fn wf(&self) -> bool {
        &&& self.phase matches ConfirmPhase::Posting { attempt } ==> attempt <= self.max_retries
        &&& self.phase matches ConfirmPhase::Pausing { attempt } ==> attempt < self.max_retries
    }

    /// A worker that waits for instances.
    pub fn new(config: &SidecarConfig) -> (res: Self)
        ensures
            res.wf(),
            res@ == (WorkerView {
                url: url_of(config.endpoint@, CONFIRM_PATH@),
                max_retries: config.max_retries,
                phase: ConfirmPhase::Waiting,
                batch: Seq::<Seq<char>>::empty(),
                last_round: false,
            }),
            res@.url == trim_end(config.endpoint@, '/') + "/ethera/confirm"@,
    {
        let res = ConfirmWorker {
            url: endpoint_url(config.endpoint.as_str(), CONFIRM_PATH),
            max_retries: config.max_retries,
            phase: ConfirmPhase::Waiting,
            batch: Vec::new(),
            last_round: false,
        };
        assert(res@.batch =~= Seq::<Seq<char>>::empty());
        res
    }

    /// What to do next.
    pub fn action(&self) -> (res: ConfirmAction)
        ensures
            match self@.phase {
                ConfirmPhase::Waiting => res is Receive,
                ConfirmPhase::Collecting => res is TryReceive,
                ConfirmPhase::Posting { attempt } => res matches ConfirmAction::Post { url, request }
                    && url@ == self@.url && id_views(request.instance_ids@) == self@.batch,
                ConfirmPhase::Pausing { attempt } => res == ConfirmAction::Pause(
                    CONFIRM_RETRY_BACKOFF_MS,
                ),
                ConfirmPhase::Stopped => res is Stop,
            },
            self@.phase is Pausing ==> res == ConfirmAction::Pause(25),
    {
        match self.phase {
            ConfirmPhase::Waiting => ConfirmAction::Receive,
            ConfirmPhase::Collecting => ConfirmAction::TryReceive,
            ConfirmPhase::Posting { attempt: _ } => ConfirmAction::Post {
                url: self.url.clone(),
                request: ConfirmIncludedRequest { instance_ids: copy_ids(&self.batch) },
            },
            ConfirmPhase::Pausing { attempt: _ } => ConfirmAction::Pause(CONFIRM_RETRY_BACKOFF_MS),
            ConfirmPhase::Stopped => ConfirmAction::Stop,
        }
    }

    /// Adds instances to the batch.
    fn extend_batch(&mut self, ids: Vec<String>)
        ensures
            final(self)@ == (WorkerView { batch: old(self)@.batch + id_views(ids@), ..old(self)@ }),
    {
        let mut ids = ids;
        let ghost added = ids@;
        self.batch.append(&mut ids);
        assert(self@.batch =~= old(self)@.batch + id_views(added));
    }

    /// Records what happened.
    pub fn step(&mut self, event: ConfirmEvent)
        requires
            old(self).wf(),
        ensures
            final(self).wf(),
            final(self)@ == stepped(old(self)@, event@),
    {
        match (self.phase, event) {
            (ConfirmPhase::Waiting, ConfirmEvent::Received(ids)) => {
                self.extend_batch(ids);
                self.phase = ConfirmPhase::Collecting;
            },
            (ConfirmPhase::Waiting, ConfirmEvent::Closed) => {
                if self.batch.is_empty() || self.last_round {
                    self.phase = ConfirmPhase::Stopped;
                } else {
                    self.phase = ConfirmPhase::Posting { attempt: 0 };
                    self.last_round = true;
                }
            },
            (ConfirmPhase::Collecting, ConfirmEvent::Received(ids)) => {
                self.extend_batch(ids);
            },
            (ConfirmPhase::Collecting, ConfirmEvent::Drained) => {
                self.phase = ConfirmPhase::Posting { attempt: 0 };
            },
            (ConfirmPhase::Collecting, ConfirmEvent::Closed) => {
                self.phase = ConfirmPhase::Posting { attempt: 0 };
            },
            (ConfirmPhase::Posting { attempt: _ }, ConfirmEvent::Posted) => {
                self.batch = Vec::new();
                self.phase = ConfirmPhase::Waiting;
                assert(self@.batch =~= Seq::<Seq<char>>::empty());
            },
            (ConfirmPhase::Posting { attempt }, ConfirmEvent::Failed) => {
                self.phase = if attempt < self.max_retries {
                    ConfirmPhase::Pausing { attempt }
                } else {
                    ConfirmPhase::Waiting
                };
            },
            (ConfirmPhase::Pausing { attempt }, ConfirmEvent::Paused) => {
                self.phase = ConfirmPhase::Posting { attempt: attempt + 1 };
            },
            _ => {},
        }
    }
}

} // verus!
