//! How an editor gets hold of the server and starts it.
use crate::settings::SERVER_NAME;
use crate::text::same_text;
use crate::version_cache::CACHE_DIRECTORY_ENV;
use crate::SERVER_VERSION;
use vstd::prelude::*;

verus! {

/// A server that can be started: the one of this release, or an older one.
#[derive(Clone, Copy, Debug, PartialEq, Eq, Structural)]
pub enum Server {
    Own,
    Fallback,
}

/// What the editor is told when an installation ends: nothing, that there is nothing to tell any
/// more, or that it failed.
#[derive(Clone, Copy, Debug, PartialEq, Eq, Structural)]
pub enum Notice {
    Unchanged,
    Cleared,
    Failed,
}

/// What has to be done next about the file of the server.
#[derive(Debug)]
pub enum Stage {
    /// Look whether the file is a server.
    ValidateCached,
    /// Make the file executable.
    EnableCached,
    /// Remove the file, which cannot be made executable.
    RemoveUnusable,
    /// Look for an older server, because the file could not be removed.
    ReplaceUnusable { error: String },
    /// Look whether there is a file that is not a server.
    LookForLeftover,
    /// Remove that file.
    RemoveLeftover,
    /// Tell the editor of the download, and download the file.
    Download,
    /// Make the downloaded file executable.
    EnableDownloaded,
    /// Remove what was downloaded, if anything was.
    DiscardFailed { error: String },
    /// Look for an older server, because the download failed.
    ReplaceFailed { error: String },
    /// Look whether the downloaded file is a server.
    ValidateDownloaded,
    /// Look for an older server, because the downloaded file is not one.
    ReplaceInvalid,
    /// Remove the downloaded file.
    DiscardInvalid,
    /// Nothing: the server is there, or there is none and the message says why.
    Finished { server: Result<Server, String>, notice: Notice },
}

pub enum StageView {
    ValidateCached,
    EnableCached,
    RemoveUnusable,
    ReplaceUnusable { error: Seq<char> },
    LookForLeftover,
    RemoveLeftover,
    Download,
    EnableDownloaded,
    DiscardFailed { error: Seq<char> },
    ReplaceFailed { error: Seq<char> },
    ValidateDownloaded,
    ReplaceInvalid,
    DiscardInvalid,
    Finished { server: Result<Server, Seq<char>>, notice: Notice },
}

impl View for Stage {
    type V = StageView;

    open spec fn view(&self) -> StageView {
        match *self {
            Stage::ValidateCached => StageView::ValidateCached,
            Stage::EnableCached => StageView::EnableCached,
            Stage::RemoveUnusable => StageView::RemoveUnusable,
            Stage::ReplaceUnusable { error } => StageView::ReplaceUnusable { error: error@ },
            Stage::LookForLeftover => StageView::LookForLeftover,
            Stage::RemoveLeftover => StageView::RemoveLeftover,
            Stage::Download => StageView::Download,
            Stage::EnableDownloaded => StageView::EnableDownloaded,
            Stage::DiscardFailed { error } => StageView::DiscardFailed { error: error@ },
            Stage::ReplaceFailed { error } => StageView::ReplaceFailed { error: error@ },
            Stage::ValidateDownloaded => StageView::ValidateDownloaded,
            Stage::ReplaceInvalid => StageView::ReplaceInvalid,
            Stage::DiscardInvalid => StageView::DiscardInvalid,
            Stage::Finished { server, notice } => StageView::Finished {
                server: match server {
                    Ok(server) => Ok(server),
                    Err(message) => Err(message@),
                },
                notice,
            },
        }
    }
}

/// What came of a stage: whether it was done, or what was looked for was there, and the error where
/// there was one.
pub struct OutcomeView {
    pub success: bool,
    pub error: Seq<char>,
}

/// Why a server that cannot be made executable stands in the way.
pub open spec fn unusable_message(path: Seq<char>, error: Seq<char>) -> Seq<char> {
    "failed to repair or replace the cached Composer language server at "@ + path + ": "@ + error
}

/// Why something that is not a server stands in the way.
pub open spec fn leftover_message(path: Seq<char>, error: Seq<char>) -> Seq<char> {
    "failed to replace an incomplete language-server download at "@ + path + ": "@ + error
}

/// Why there is no server after a download failed.
pub open spec fn failed_message(target: Seq<char>, error: Seq<char>) -> Seq<char> {
    "failed to install Composer language server "@ + SERVER_VERSION@ + " for "@ + target + ": "@
        + error
        + ". No previously installed native server is available; check the v"@ + SERVER_VERSION@
        + " GitHub release and Zed's download permissions"@
}

/// Why there is no server after something else was downloaded.
pub open spec fn invalid_message(target: Seq<char>) -> Seq<char> {
    "downloaded Composer language server "@ + SERVER_VERSION@ + " for "@ + target
        + " is not a valid executable"@
}

/// The stage that follows a stage, given what came of it.
pub open spec fn next_stage(
    stage: StageView,
    outcome: OutcomeView,
    target: Seq<char>,
    path: Seq<char>,
) -> StageView {
    match stage {
        StageView::ValidateCached => if outcome.success {
            StageView::EnableCached
        } else {
            StageView::LookForLeftover
        },
        StageView::EnableCached => if outcome.success {
            StageView::Finished { server: Ok(Server::Own), notice: Notice::Unchanged }
        } else {
            StageView::RemoveUnusable
        },
        StageView::RemoveUnusable => if outcome.success {
            StageView::LookForLeftover
        } else {
            StageView::ReplaceUnusable { error: outcome.error }
        },
        StageView::ReplaceUnusable { error } => if outcome.success {
            StageView::Finished { server: Ok(Server::Fallback), notice: Notice::Unchanged }
        } else {
            StageView::Finished {
                server: Err(unusable_message(path, error)),
                notice: Notice::Unchanged,
            }
        },
        StageView::LookForLeftover => if outcome.success {
            StageView::RemoveLeftover
        } else {
            StageView::Download
        },
        StageView::RemoveLeftover => if outcome.success {
            StageView::Download
        } else {
            StageView::Finished {
                server: Err(leftover_message(path, outcome.error)),
                notice: Notice::Unchanged,
            }
        },
        StageView::Download => if outcome.success {
            StageView::EnableDownloaded
        } else {
            StageView::DiscardFailed { error: outcome.error }
        },
        StageView::EnableDownloaded => if outcome.success {
            StageView::ValidateDownloaded
        } else {
            StageView::DiscardFailed { error: outcome.error }
        },
        StageView::DiscardFailed { error } => StageView::ReplaceFailed { error },
        StageView::ReplaceFailed { error } => if outcome.success {
            StageView::Finished { server: Ok(Server::Fallback), notice: Notice::Cleared }
        } else {
            StageView::Finished {
                server: Err(failed_message(target, error)),
                notice: Notice::Failed,
            }
        },
        StageView::ValidateDownloaded => if outcome.success {
            StageView::Finished { server: Ok(Server::Own), notice: Notice::Cleared }
        } else {
            StageView::ReplaceInvalid
        },
        StageView::ReplaceInvalid => if outcome.success {
            StageView::Finished { server: Ok(Server::Fallback), notice: Notice::Cleared }
        } else {
            StageView::DiscardInvalid
        },
        StageView::DiscardInvalid => StageView::Finished {
            server: Err(invalid_message(target)),
            notice: Notice::Failed,
        },
        StageView::Finished { .. } => stage,
    }
}

fn unusable_text(path: &str, error: &str) -> (message: String)
    ensures
        message@ == unusable_message(path@, error@),
{
    let mut message =
        "failed to repair or replace the cached Composer language server at ".to_owned();
    message.append(path);
    message.append(": ");
    message.append(error);
    message
}

fn leftover_text(path: &str, error: &str) -> (message: String)
    ensures
        message@ == leftover_message(path@, error@),
{
    let mut message = "failed to replace an incomplete language-server download at ".to_owned();
    message.append(path);
    message.append(": ");
    message.append(error);
    message
}

fn failed_text(target: &str, error: &str) -> (message: String)
    ensures
        message@ == failed_message(target@, error@),
{
    let mut message = "failed to install Composer language server ".to_owned();
    message.append(SERVER_VERSION);
    message.append(" for ");
    message.append(target);
    message.append(": ");
    message.append(error);
    message.append(". No previously installed native server is available; check the v");
    message.append(SERVER_VERSION);
    message.append(" GitHub release and Zed's download permissions");
    message
}

fn invalid_text(target: &str) -> (message: String)
    ensures
        message@ == invalid_message(target@),
{
    let mut message = "downloaded Composer language server ".to_owned();
    message.append(SERVER_VERSION);
    message.append(" for ");
    message.append(target);
    message.append(" is not a valid executable");
    message
}

/// The end of an installation.
fn finished(server: Result<Server, String>, notice: Notice) -> (stage: Stage)
    ensures
        stage == (Stage::Finished { server, notice }),
{
    Stage::Finished { server, notice }
}

/// The stage that follows a stage, given what came of it.
pub fn next(stage: Stage, success: bool, error: String, target: &str, path: &str) -> (following:
    Stage)
    ensures
        following@ == next_stage(
            stage@,
            (OutcomeView { success, error: error@ }),
            target@,
            path@,
        ),
{
    match stage {
        Stage::ValidateCached => if success {
            Stage::EnableCached
        } else {
            Stage::LookForLeftover
        },
        Stage::EnableCached => if success {
            finished(Ok(Server::Own), Notice::Unchanged)
        } else {
            Stage::RemoveUnusable
        },
        Stage::RemoveUnusable => if success {
            Stage::LookForLeftover
        } else {
            Stage::ReplaceUnusable { error }
        },
        Stage::ReplaceUnusable { error } => if success {
            finished(Ok(Server::Fallback), Notice::Unchanged)
        } else {
            finished(Err(unusable_text(path, error.as_str())), Notice::Unchanged)
        },
        Stage::LookForLeftover => if success {
            Stage::RemoveLeftover
        } else {
            Stage::Download
        },
        Stage::RemoveLeftover => if success {
            Stage::Download
        } else {
            finished(Err(leftover_text(path, error.as_str())), Notice::Unchanged)
        },
        Stage::Download => if success {
            Stage::EnableDownloaded
        } else {
            Stage::DiscardFailed { error }
        },
        Stage::EnableDownloaded => if success {
            Stage::ValidateDownloaded
        } else {
            Stage::DiscardFailed { error }
        },
        Stage::DiscardFailed { error } => Stage::ReplaceFailed { error },
        Stage::ReplaceFailed { error } => if success {
            finished(Ok(Server::Fallback), Notice::Cleared)
        } else {
            finished(Err(failed_text(target, error.as_str())), Notice::Failed)
        },
        Stage::ValidateDownloaded => if success {
            finished(Ok(Server::Own), Notice::Cleared)
        } else {
            Stage::ReplaceInvalid
        },
        Stage::ReplaceInvalid => if success {
            finished(Ok(Server::Fallback), Notice::Cleared)
        } else {
            Stage::DiscardInvalid
        },
        Stage::DiscardInvalid => finished(Err(invalid_text(target)), Notice::Failed),
        Stage::Finished { server, notice } => Stage::Finished { server, notice },
    }
}

/// The stage after a row of outcomes, from the beginning of an installation.
pub open spec fn stage_after(
    outcomes: Seq<OutcomeView>,
    target: Seq<char>,
    path: Seq<char>,
) -> StageView
    decreases outcomes.len(),
{
    if outcomes.len() == 0 {
        StageView::ValidateCached
    } else {
        next_stage(
            stage_after(outcomes.drop_last(), target, path),
            outcomes.last(),
            target,
            path,
        )
    }
}

/// How many stages can still follow.
pub open spec fn stages_left(stage: StageView) -> nat {
    match stage {
        StageView::ValidateCached => 10,
        StageView::EnableCached => 9,
        StageView::RemoveUnusable => 8,
        StageView::ReplaceUnusable { .. } => 1,
        StageView::LookForLeftover => 7,
        StageView::RemoveLeftover => 6,
        StageView::Download => 5,
        StageView::EnableDownloaded => 4,
        StageView::DiscardFailed { .. } => 2,
        StageView::ReplaceFailed { .. } => 1,
        StageView::ValidateDownloaded => 3,
        StageView::ReplaceInvalid => 2,
        StageView::DiscardInvalid => 1,
        StageView::Finished { .. } => 0,
    }
}

/// Every installation ends, whatever comes of its stages: after ten of them at the latest.
pub proof fn law_installation_ends(
    outcomes: Seq<OutcomeView>,
    target: Seq<char>,
    path: Seq<char>,
)
    ensures
        outcomes.len() >= 10 ==> stage_after(outcomes, target, path) is Finished,
        stages_left(stage_after(outcomes, target, path)) + outcomes.len() <= 10 || stage_after(
            outcomes,
            target,
            path,
        ) is Finished,
    decreases outcomes.len(),
{
    if outcomes.len() > 0 {
        law_installation_ends(outcomes.drop_last(), target, path);
    }
}

/// The outcome at a place is a success, and it came of the given stage.
pub open spec fn succeeded_at(
    outcomes: Seq<OutcomeView>,
    target: Seq<char>,
    path: Seq<char>,
    at: int,
    stage: StageView,
) -> bool {
    0 <= at < outcomes.len() && outcomes[at].success && stage_after(
        outcomes.take(at),
        target,
        path,
    ) == stage
}

/// The server of this release is never started unless its file was found to be a server and was
/// made executable, one right after the other, and nothing was done to it since.
pub proof fn law_own_server_is_checked(
    outcomes: Seq<OutcomeView>,
    target: Seq<char>,
    path: Seq<char>,
)
    requires
        stage_after(outcomes, target, path) matches StageView::Finished { server: Ok(server), .. }
            && server == Server::Own,
    ensures
        exists|at: int|
            #![trigger outcomes[at]]
            {
                ||| succeeded_at(outcomes, target, path, at, StageView::ValidateCached)
                    && succeeded_at(outcomes, target, path, at + 1, StageView::EnableCached)
                ||| succeeded_at(outcomes, target, path, at, StageView::EnableDownloaded)
                    && succeeded_at(outcomes, target, path, at + 1, StageView::ValidateDownloaded)
            },
    decreases outcomes.len(),
{
    let front = outcomes.drop_last();
    let end = outcomes.len() - 1;
    let before = stage_after(front, target, path);
    assert(outcomes.take(end) =~= front);
    if before is Finished {
        law_own_server_is_checked(front, target, path);
        let at = choose|at: int|
            #![trigger front[at]]
            {
                ||| succeeded_at(front, target, path, at, StageView::ValidateCached)
                    && succeeded_at(front, target, path, at + 1, StageView::EnableCached)
                ||| succeeded_at(front, target, path, at, StageView::EnableDownloaded)
                    && succeeded_at(front, target, path, at + 1, StageView::ValidateDownloaded)
            };
        assert(front.take(at) =~= outcomes.take(at));
        assert(front.take(at + 1) =~= outcomes.take(at + 1));
        assert(front[at] == outcomes[at]);
    } else {
        let earlier = front.drop_last();
        let at = end - 1;
        assert(front.len() > 0);
        assert(outcomes.take(at) =~= earlier);
        assert(outcomes[at] == front.last());
        assert(stage_after(front, target, path) == next_stage(
            stage_after(earlier, target, path),
            front.last(),
            target,
            path,
        ));
    }
}

/// An installation fails only where no older server could stand in, or where something that is not
/// a server could not be removed.
pub proof fn law_failure_has_a_reason(
    outcomes: Seq<OutcomeView>,
    target: Seq<char>,
    path: Seq<char>,
)
    requires
        stage_after(outcomes, target, path) matches StageView::Finished { server: Err(_), .. },
    ensures
        exists|at: int|
            #![trigger outcomes[at]]
            0 <= at < outcomes.len() && !outcomes[at].success && {
                let stage = stage_after(outcomes.take(at), target, path);
                ||| stage is ReplaceUnusable
                ||| stage is ReplaceFailed
                ||| stage is ReplaceInvalid
                ||| stage is RemoveLeftover
            },
    decreases outcomes.len(),
{
    let front = outcomes.drop_last();
    let end = outcomes.len() - 1;
    let before = stage_after(front, target, path);
    assert(outcomes.take(end) =~= front);
    if before is Finished {
        law_failure_has_a_reason(front, target, path);
        let at = choose|at: int|
            #![trigger front[at]]
            0 <= at < front.len() && !front[at].success && {
                let stage = stage_after(front.take(at), target, path);
                ||| stage is ReplaceUnusable
                ||| stage is ReplaceFailed
                ||| stage is ReplaceInvalid
                ||| stage is RemoveLeftover
            };
        assert(front.take(at) =~= outcomes.take(at));
        assert(front[at] == outcomes[at]);
    } else if before is DiscardInvalid {
        let earlier = front.drop_last();
        let at = end - 1;
        assert(front.len() > 0);
        assert(outcomes.take(at) =~= earlier);
        assert(outcomes[at] == front.last());
    } else {
        assert(!outcomes[end].success);
    }
}

/// Tells whether a language server is the one of this extension.
pub fn is_own_language_server(id: &str) -> (yes: bool)
    ensures
        yes == (id@ == SERVER_NAME@),
{
    same_text(id, SERVER_NAME)
}

/// A command that an editor runs.
#[derive(Debug)]
pub struct Command {
    pub command: String,
    pub arguments: Vec<String>,
    pub environment: Vec<(String, String)>,
}

/// What the variables of an environment are.
pub open spec fn variable_views(environment: Seq<(String, String)>) -> Seq<(Seq<char>, Seq<char>)> {
    environment.map_values(|variable: (String, String)| (variable.0@, variable.1@))
}

/// A variable of the environment has the given name.
pub open spec fn has_variable(environment: Seq<(Seq<char>, Seq<char>)>, name: Seq<char>) -> bool {
    exists|i: int| 0 <= i < environment.len() && (#[trigger] environment[i]).0 == name
}

/// An environment that names a directory for the cache: the one that it names already, or else the
/// given one.
pub open spec fn with_cache_directory(
    environment: Seq<(Seq<char>, Seq<char>)>,
    directory: Seq<char>,
) -> Seq<(Seq<char>, Seq<char>)> {
    if has_variable(environment, CACHE_DIRECTORY_ENV@) {
        environment
    } else {
        environment.push((CACHE_DIRECTORY_ENV@, directory))
    }
}

/// An environment that names a directory for the cache.
pub fn add_cache_directory(environment: Vec<(String, String)>, directory: String) -> (complete: Vec<
    (String, String),
>)
    ensures
        variable_views(complete@) == with_cache_directory(
            variable_views(environment@),
            directory@,
        ),
{
    let ghost given = variable_views(environment@);
    let mut complete = environment;
    let mut i: usize = 0;
    while i < complete.len()
        invariant
            i <= complete@.len(),
            given == variable_views(environment@),
            given == variable_views(complete@),
            forall|j: int| 0 <= j < i ==> (#[trigger] given[j]).0 != CACHE_DIRECTORY_ENV@,
        decreases complete@.len() - i,
    {
        if same_text(complete[i].0.as_str(), CACHE_DIRECTORY_ENV) {
            assert(given[i as int].0 == CACHE_DIRECTORY_ENV@);
            return complete;
        }
        i += 1;
    }
    complete.push((CACHE_DIRECTORY_ENV.to_owned(), directory));
    assert(variable_views(complete@) =~= given.push((CACHE_DIRECTORY_ENV@, directory@)));
    complete
}

/// The command for a server that the user has chosen: with the arguments and the environment that
/// the user has given, if any, and with a directory for the cache.
pub fn custom_command(
    command: String,
    arguments: Option<Vec<String>>,
    environment: Option<Vec<(String, String)>>,
    directory: String,
) -> (custom: Command)
    ensures
        custom.command@ == command@,
        match arguments {
            Some(arguments) => custom.arguments@ == arguments@,
            None => custom.arguments@.len() == 0,
        },
        variable_views(custom.environment@) == with_cache_directory(
            match environment {
                Some(environment) => variable_views(environment@),
                None => Seq::empty(),
            },
            directory@,
        ),
{
    let arguments = match arguments {
        Some(arguments) => arguments,
        None => Vec::new(),
    };
    let environment = match environment {
        Some(environment) => environment,
        None => {
            let none: Vec<(String, String)> = Vec::new();
            assert(variable_views(none@) =~= Seq::empty());
            none
        },
    };
    Command { command, arguments, environment: add_cache_directory(environment, directory) }
}

/// The command for a server that was installed: without arguments, and with a directory for the
/// cache.
pub fn installed_command(command: String, directory: String) -> (installed: Command)
    ensures
        installed.command@ == command@,
        installed.arguments@.len() == 0,
        variable_views(installed.environment@) == seq![(CACHE_DIRECTORY_ENV@, directory@)],
{
    let mut environment: Vec<(String, String)> = Vec::new();
    environment.push((CACHE_DIRECTORY_ENV.to_owned(), directory));
    assert(variable_views(environment@) =~= seq![(CACHE_DIRECTORY_ENV@, directory@)]);
    Command { command, arguments: Vec::new(), environment }
}

/// Every server is started with a directory for its cache, and the choice of the user is kept.
pub proof fn law_cache_directory_is_named(
    environment: Seq<(Seq<char>, Seq<char>)>,
    directory: Seq<char>,
)
    ensures
        has_variable(with_cache_directory(environment, directory), CACHE_DIRECTORY_ENV@),
        environment.is_prefix_of(with_cache_directory(environment, directory)),
        has_variable(environment, CACHE_DIRECTORY_ENV@) ==> with_cache_directory(
            environment,
            directory,
        ) == environment,
{
    let complete = with_cache_directory(environment, directory);
    if !has_variable(environment, CACHE_DIRECTORY_ENV@) {
        assert(complete[environment.len() as int].0 == CACHE_DIRECTORY_ENV@);
    }
}

/// A server of this release that is there and can be made executable is used as it is: nothing is
/// removed or downloaded, and the editor is told nothing.
pub proof fn law_installed_server_is_used(
    first: OutcomeView,
    second: OutcomeView,
    target: Seq<char>,
    path: Seq<char>,
)
    requires
        first.success,
        second.success,
    ensures
        stage_after(seq![first], target, path) == StageView::EnableCached,
        stage_after(seq![first, second], target, path) == (StageView::Finished {
            server: Ok(Server::Own),
            notice: Notice::Unchanged,
        }),
{
    reveal_with_fuel(stage_after, 3);
    assert(seq![first].drop_last() =~= Seq::empty());
    assert(seq![first, second].drop_last() =~= seq![first]);
}

/// Where no server of this release is there, what stands in its place is removed, and the server is
/// downloaded. It is made executable, looked at and used, and the editor is told that this is over.
pub proof fn law_missing_server_is_downloaded(
    outcome: OutcomeView,
    leftover: OutcomeView,
    target: Seq<char>,
    path: Seq<char>,
)
    requires
        outcome.success,
        !leftover.success,
    ensures
        next_stage(StageView::ValidateCached, leftover, target, path) == StageView::LookForLeftover,
        next_stage(StageView::RemoveUnusable, outcome, target, path) == StageView::LookForLeftover,
        next_stage(StageView::LookForLeftover, leftover, target, path) == StageView::Download,
        next_stage(StageView::LookForLeftover, outcome, target, path) == StageView::RemoveLeftover,
        next_stage(StageView::RemoveLeftover, outcome, target, path) == StageView::Download,
        next_stage(StageView::Download, outcome, target, path) == StageView::EnableDownloaded,
        next_stage(StageView::EnableDownloaded, outcome, target, path)
            == StageView::ValidateDownloaded,
        next_stage(StageView::ValidateDownloaded, outcome, target, path) == (StageView::Finished {
            server: Ok(Server::Own),
            notice: Notice::Cleared,
        }),
{
}

/// Where a download fails or the file cannot be made executable, what was downloaded is removed, and an
/// older server stands in. Where there is none, the editor is told that the installation failed, and
/// the message names the release, the target and the error.
pub proof fn law_failed_download_is_told(
    failed: OutcomeView,
    discarded: OutcomeView,
    replaced: OutcomeView,
    target: Seq<char>,
    path: Seq<char>,
)
    requires
        !failed.success,
    ensures
        ({
            let discard = next_stage(StageView::Download, failed, target, path);
            let replace = next_stage(discard, discarded, target, path);
            &&& discard is DiscardFailed
            &&& next_stage(StageView::EnableDownloaded, failed, target, path) == discard
            &&& replace is ReplaceFailed
            &&& next_stage(replace, replaced, target, path) == (if replaced.success {
                StageView::Finished { server: Ok(Server::Fallback), notice: Notice::Cleared }
            } else {
                StageView::Finished {
                    server: Err(
                        "failed to install Composer language server "@ + "0.2.5"@ + " for "@ + target
                            + ": "@ + failed.error
                            + ". No previously installed native server is available; check the v"@
                            + "0.2.5"@ + " GitHub release and Zed's download permissions"@,
                    ),
                    notice: Notice::Failed,
                }
            })
        }),
{
}

/// Where something else was downloaded, an older server stands in. Where there is none, the file is
/// removed, and the editor is told that the installation failed.
pub proof fn law_invalid_download_is_told(
    failed: OutcomeView,
    replaced: OutcomeView,
    discarded: OutcomeView,
    target: Seq<char>,
    path: Seq<char>,
)
    requires
        !failed.success,
    ensures
        ({
            let replace = next_stage(StageView::ValidateDownloaded, failed, target, path);
            let following = next_stage(replace, replaced, target, path);
            &&& replace == StageView::ReplaceInvalid
            &&& replaced.success ==> following == (StageView::Finished {
                server: Ok(Server::Fallback),
                notice: Notice::Cleared,
            })
            &&& !replaced.success ==> following == StageView::DiscardInvalid && next_stage(
                following,
                discarded,
                target,
                path,
            ) == (StageView::Finished {
                server: Err(
                    "downloaded Composer language server "@ + "0.2.5"@ + " for "@ + target
                        + " is not a valid executable"@,
                ),
                notice: Notice::Failed,
            })
        }),
{
}

/// A server that cannot be made executable is removed. Where that fails, an older one stands in, or the
/// message names the file and the error. A file that is not a server and cannot be removed ends the
/// installation.
pub proof fn law_stuck_files_are_told(
    failed: OutcomeView,
    removed: OutcomeView,
    replaced: OutcomeView,
    target: Seq<char>,
    path: Seq<char>,
)
    requires
        !failed.success,
        !removed.success,
    ensures
        next_stage(StageView::EnableCached, failed, target, path) == StageView::RemoveUnusable,
        ({
            let replace = next_stage(StageView::RemoveUnusable, removed, target, path);
            &&& replace is ReplaceUnusable
            &&& next_stage(replace, replaced, target, path) == (if replaced.success {
                StageView::Finished { server: Ok(Server::Fallback), notice: Notice::Unchanged }
            } else {
                StageView::Finished {
                    server: Err(
                        "failed to repair or replace the cached Composer language server at "@ + path
                            + ": "@ + removed.error,
                    ),
                    notice: Notice::Unchanged,
                }
            })
        }),
        next_stage(StageView::RemoveLeftover, removed, target, path) == (StageView::Finished {
            server: Err(
                "failed to replace an incomplete language-server download at "@ + path + ": "@
                    + removed.error,
            ),
            notice: Notice::Unchanged,
        }),
{
}

/// Where the user names no directory for the cache, the given one is named, and nothing else changes.
pub proof fn law_given_cache_directory_is_used(
    environment: Seq<(Seq<char>, Seq<char>)>,
    directory: Seq<char>,
)
    requires
        forall|i: int|
            0 <= i < environment.len() ==> (#[trigger] environment[i]).0
                != "COMPOSER_LANGUAGE_SERVER_CACHE_DIR"@,
    ensures
        with_cache_directory(environment, directory) == environment.push(
            ("COMPOSER_LANGUAGE_SERVER_CACHE_DIR"@, directory),
        ),
{
}

} // verus!
