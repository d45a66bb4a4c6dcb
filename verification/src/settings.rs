//! What a client asks for when it starts the server, and how hints are refreshed.
use crate::json::{Json, JsonView};
use crate::SERVER_VERSION;
use vstd::prelude::*;

verus! {

pub const SERVER_NAME: &'static str = "composer-language-server";

/// How many milliseconds pass between the arrival of a version and the refresh of the hints.
pub const REFRESH_DELAY_MILLISECONDS: u64 = 100;

/// Whether updates are looked for: unless the client says otherwise.
pub open spec fn wants_updates(options: Option<JsonView>) -> bool {
    match options {
        Some(options) => match options.bool_member("check_updates"@) {
            Some(wanted) => wanted,
            None => true,
        },
        None => true,
    }
}

/// Whether the client can be asked to refresh its hints.
pub open spec fn can_refresh(capabilities: JsonView) -> bool {
    match capabilities.member("workspace"@) {
        Some(workspace) => match workspace.member("inlayHint"@) {
            Some(hints) => hints.bool_member("refreshSupport"@) == Some(true),
            None => false,
        },
        None => false,
    }
}

/// How the server calls itself in requests.
pub open spec fn agent_name() -> Seq<char> {
    "zed-composer-support/"@ + SERVER_VERSION@
        + " (+https://github.com/BastenIT/zed-composer-support)"@
}

/// Tells whether updates are looked for.
pub fn check_updates(options: Option<&Json>) -> (wanted: bool)
    ensures
        wanted == wants_updates(
            match options {
                Some(options) => Some(options@),
                None => None,
            },
        ),
{
    match options {
        Some(options) => match options.get_bool("check_updates") {
            Some(wanted) => wanted,
            None => true,
        },
        None => true,
    }
}

/// Tells whether the client can be asked to refresh its hints.
pub fn refresh_supported(capabilities: &Json) -> (yes: bool)
    ensures
        yes == can_refresh(capabilities@),
{
    match capabilities.get("workspace") {
        Some(workspace) => match workspace.get("inlayHint") {
            Some(hints) => match hints.get_bool("refreshSupport") {
                Some(supported) => supported,
                None => false,
            },
            None => false,
        },
        None => false,
    }
}

/// How the server calls itself in requests.
pub fn user_agent() -> (name: String)
    ensures
        name@ == agent_name(),
{
    let mut name = "zed-composer-support/".to_owned();
    name.append(SERVER_VERSION);
    name.append(" (+https://github.com/BastenIT/zed-composer-support)");
    name
}

/// Whether hints can be refreshed, and whether a refresh is due already.
#[derive(Clone, Copy, Debug, Default)]
pub struct RefreshState {
    pub supported: bool,
    pub scheduled: bool,
}

impl RefreshState {
    /// Schedules a refresh, unless hints cannot be refreshed or one is scheduled, and tells whether
    /// it did.
    pub fn schedule_refresh(&mut self) -> (due: bool)
        ensures
            due == (old(self).supported && !old(self).scheduled),
            final(self).supported == old(self).supported,
            final(self).scheduled == (old(self).scheduled || due),
    {
        let due = self.supported && !self.scheduled;
        if due {
            self.scheduled = true;
        }
        due
    }

    /// Notes that the scheduled refresh begins, so that another one can be scheduled.
    pub fn refresh_begins(&mut self)
        ensures
            !final(self).scheduled,
            final(self).supported == old(self).supported,
    {
        self.scheduled = false;
    }
}

/// Updates are looked for unless the options of the client hold `check_updates` as `false`: neither
/// missing options nor any other value there switch them off.
pub proof fn law_updates_are_looked_for_by_default(options: Option<JsonView>)
    ensures
        wants_updates(options) <==> !(options matches Some(options) && options.member(
            "check_updates"@,
        ) == Some(JsonView::Bool(false))),
{
}

/// A client is asked to refresh its hints only where its capabilities hold `refreshSupport` as `true`
/// below `inlayHint` below `workspace`.
pub proof fn law_refresh_has_to_be_supported(capabilities: JsonView)
    ensures
        can_refresh(capabilities) <==> (capabilities.member("workspace"@) matches Some(workspace)
            && workspace.member("inlayHint"@) matches Some(hints) && hints.member(
            "refreshSupport"@,
        ) == Some(JsonView::Bool(true))),
{
}

/// The server calls itself by the name of the project, its release and the address of the project.
pub proof fn law_server_names_itself()
    ensures
        agent_name() == "zed-composer-support/"@ + "0.2.5"@
            + " (+https://github.com/BastenIT/zed-composer-support)"@,
        SERVER_NAME@ == "composer-language-server"@,
{
}

} // verus!
