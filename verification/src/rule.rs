//! Forwarding rules: their protocol, status, traffic counters, and the
//! requests that create and edit them.
use vstd::prelude::*;

verus! {

/// The transport that a rule forwards.
#[derive(Debug, Clone, Copy, PartialEq, Eq, Structural)]
pub enum Protocol {
    Tcp,
    Udp,
}

/// Where a rule stands: stopped, running, or stopped by an error whose
/// message it keeps.
#[derive(Debug)]
pub enum RuleStatus {
    Stopped,
    Running,
    Error(String),
}

/// A rule's status as a mathematical value.
pub enum RuleStatusView {
    Stopped,
    Running,
    Error(Seq<char>),
}

impl View for RuleStatus {
    type V = RuleStatusView;

    open spec fn view(&self) -> RuleStatusView {
        match self {
            RuleStatus::Stopped => RuleStatusView::Stopped,
            RuleStatus::Running => RuleStatusView::Running,
            RuleStatus::Error(e) => RuleStatusView::Error(e@),
        }
    }
}

impl Clone for RuleStatus {
    fn clone(&self) -> (res: Self)
        ensures
            res == *self,
    {
        match self {
            RuleStatus::Stopped => RuleStatus::Stopped,
            RuleStatus::Running => RuleStatus::Running,
            RuleStatus::Error(e) => RuleStatus::Error(e.clone()),
        }
    }
}

impl PartialEq for RuleStatus {
    fn eq(&self, other: &Self) -> (res: bool) {
        match (self, other) {
            (RuleStatus::Stopped, RuleStatus::Stopped) => true,
            (RuleStatus::Running, RuleStatus::Running) => true,
            (RuleStatus::Error(a), RuleStatus::Error(b)) => String::eq(a, b),
            _ => false,
        }
    }
}

impl vstd::std_specs::cmp::PartialEqSpecImpl for RuleStatus {
    open spec fn obeys_eq_spec() -> bool {
        true
    }

    open spec fn eq_spec(&self, other: &Self) -> bool {
        self@ == other@
    }
}

/// Traffic counters of a rule: bytes sent towards the target, bytes sent back,
/// and open connections (UDP: sessions).
#[derive(Debug, Clone, Copy, PartialEq, Eq, Structural)]
pub struct RuleStats {
    pub bytes_up: u64,
    pub bytes_down: u64,
    pub connections: i64,
}

/// All counters at zero.
pub open spec fn zero_stats() -> RuleStats {
    RuleStats { bytes_up: 0, bytes_down: 0, connections: 0 }
}

impl Default for RuleStats {
    fn default() -> (res: Self)
        ensures
            res == zero_stats(),
    {
        RuleStats { bytes_up: 0, bytes_down: 0, connections: 0 }
    }
}

/// A forwarding rule: traffic arriving at `listen_addr` goes to `target_addr`.
/// `order` places the rule in listings.
#[derive(Debug)]
pub struct ForwardRule {
    pub id: String,
    pub order: u64,
    pub name: String,
    pub protocol: Protocol,
    pub listen_addr: String,
    pub target_addr: String,
    pub enabled: bool,
    pub status: RuleStatus,
    pub stats: RuleStats,
}

/// A rule as a mathematical value.
pub struct ForwardRuleView {
    pub id: Seq<char>,
    pub order: u64,
    pub name: Seq<char>,
    pub protocol: Protocol,
    pub listen_addr: Seq<char>,
    pub target_addr: Seq<char>,
    pub enabled: bool,
    pub status: RuleStatusView,
    pub stats: RuleStats,
}

impl View for ForwardRule {
    type V = ForwardRuleView;

    open spec fn view(&self) -> ForwardRuleView {
        ForwardRuleView {
            id: self.id@,
            order: self.order,
            name: self.name@,
            protocol: self.protocol,
            listen_addr: self.listen_addr@,
            target_addr: self.target_addr@,
            enabled: self.enabled,
            status: self.status@,
            stats: self.stats,
        }
    }
}

impl Clone for ForwardRule {
    fn clone(&self) -> (res: Self)
        ensures
            res == *self,
    {
        ForwardRule {
            id: self.id.clone(),
            order: self.order,
            name: self.name.clone(),
            protocol: self.protocol,
            listen_addr: self.listen_addr.clone(),
            target_addr: self.target_addr.clone(),
            enabled: self.enabled,
            status: self.status.clone(),
            stats: self.stats,
        }
    }
}

/// Whether `c` is a lowercase hex digit.
pub open spec fn is_lower_hex(c: char) -> bool {
    ('0' <= c <= '9') || ('a' <= c <= 'f')
}

/// Whether `s` is the text of a random (version 4) UUID in its hyphenated
/// lowercase form: 36 characters, hyphens at 8, 13, 18 and 23, lowercase hex
/// digits elsewhere, `4` at 14 and one of `8 9 a b` at 19.
pub open spec fn is_uuid_v4_text(s: Seq<char>) -> bool {
    &&& s.len() == 36
    &&& forall|i: int|
        0 <= i < 36 ==> if i == 8 || i == 13 || i == 18 || i == 23 {
            s[i] == '-'
        } else {
            is_lower_hex(#[trigger] s[i])
        }
    &&& s[14] == '4'
    &&& (s[19] == '8' || s[19] == '9' || s[19] == 'a' || s[19] == 'b')
}

/// A fresh random identifier: `uuid::Uuid::new_v4()` in its `Display` form.
/// The contract claims what uuid's source shows of every outcome: the
/// hyphenated lowercase text of a version 4, RFC 4122 variant UUID. Which
/// UUID comes out is left open (it is random).
#[verifier::external_body]
pub(crate) fn new_v4_text() -> (s: String)
    ensures
        is_uuid_v4_text(s@),
{
    uuid::Uuid::new_v4().to_string()
}

/// A rule as a new rule with identifier `id` stands: disabled, stopped, with
/// zero counters.
pub open spec fn fresh_rule(
    id: Seq<char>,
    order: u64,
    name: Seq<char>,
    protocol: Protocol,
    listen_addr: Seq<char>,
    target_addr: Seq<char>,
) -> ForwardRuleView {
    ForwardRuleView {
        id,
        order,
        name,
        protocol,
        listen_addr,
        target_addr,
        enabled: false,
        status: RuleStatusView::Stopped,
        stats: zero_stats(),
    }
}

impl ForwardRule {
    /// A new rule with a fresh random identifier, disabled and stopped, with
    /// zero counters.
    pub fn new(
        order: u64,
        name: String,
        protocol: Protocol,
        listen_addr: String,
        target_addr: String,
    ) -> (rule: Self)
        ensures
            is_uuid_v4_text(rule.id@),
            rule@ == fresh_rule(rule.id@, order, name@, protocol, listen_addr@, target_addr@),
    {
        let id = new_v4_text();
        Self::with_id(id, order, name, protocol, listen_addr, target_addr)
    }

    /// A new rule with the given identifier, disabled and stopped, with zero
    /// counters.
    pub fn with_id(
        id: String,
        order: u64,
        name: String,
        protocol: Protocol,
        listen_addr: String,
        target_addr: String,
    ) -> (rule: Self)
        ensures
            rule@ == fresh_rule(id@, order, name@, protocol, listen_addr@, target_addr@),
    {
        ForwardRule {
            id,
            order,
            name,
            protocol,
            listen_addr,
            target_addr,
            enabled: false,
            status: RuleStatus::Stopped,
            stats: RuleStats::default(),
        }
    }
}

/// What a user gives to create a rule.
#[derive(Debug)]
pub struct CreateRuleRequest {
    pub name: String,
    pub protocol: Protocol,
    pub listen_addr: String,
    pub target_addr: String,
}

/// What a user gives to edit a rule: its identifier and the new values.
#[derive(Debug)]
pub struct UpdateRuleRequest {
    pub id: String,
    pub name: String,
    pub protocol: Protocol,
    pub listen_addr: String,
    pub target_addr: String,
}

} // verus!
