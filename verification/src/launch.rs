//! Launching the game: the checks made first and the command run.
use vstd::prelude::*;
use crate::text::{replace_all, replace_all_spec};

verus! {

/// Which setting the side panel is editing.
#[derive(PartialEq, Eq, Structural, Clone, Copy, Debug)]
pub enum SettingsEditType {
    Nothing,
    GamePath,
    GameCommand,
}

/// The settings key an edit in progress is saved under, if any.
pub fn edited_setting_key(edit: SettingsEditType) -> (r: Option<&'static str>)
    ensures
        match edit {
            SettingsEditType::GamePath => r == Some("game_path"),
            SettingsEditType::GameCommand => r == Some("game_command"),
            SettingsEditType::Nothing => r is None,
        },
{
    match edit {
        SettingsEditType::GamePath => Some("game_path"),
        SettingsEditType::GameCommand => Some("game_command"),
        SettingsEditType::Nothing => None,
    }
}

/// Why the game is not launched.
#[derive(PartialEq, Eq, Structural, Clone, Copy, Debug)]
pub enum LaunchBlock {
    /// The game is running already.
    AlreadyRunning,
    /// The game's path or the command to start it is not set.
    MissingSettings,
}

impl LaunchBlock {
    /// The status line shown for the block.
    pub fn message(&self) -> (r: &'static str)
        ensures
            match self {
                LaunchBlock::AlreadyRunning => r == "Game is already running. Please close it before launching again.",
                LaunchBlock::MissingSettings => r == "Game path or command is empty. Please set them before launching.",
            },
    {
        match self {
            LaunchBlock::AlreadyRunning => "Game is already running. Please close it before launching again.",
            LaunchBlock::MissingSettings => "Game path or command is empty. Please set them before launching.",
        }
    }
}

/// Whether the game may be launched: not while it runs, and not without a
/// game path and a command.
pub fn launch_check(game_running: bool, game_path: &str, game_command: &str) -> (r: Result<(), LaunchBlock>)
    ensures
        game_running ==> r == Err::<(), LaunchBlock>(LaunchBlock::AlreadyRunning),
        !game_running && (game_path@.len() == 0 || game_command@.len() == 0) ==> r == Err::<(), LaunchBlock>(
            LaunchBlock::MissingSettings,
        ),
        !game_running && game_path@.len() > 0 && game_command@.len() > 0 ==> r == Ok::<(), LaunchBlock>(()),
{
    if game_running {
        return Err(LaunchBlock::AlreadyRunning);
    }
    if game_path.is_empty() || game_command.is_empty() {
        return Err(LaunchBlock::MissingSettings);
    }
    Ok(())
}

/// The command run to start the game: the configured command with every
/// `%path%` replaced by the folder the virtual file system was laid out in.
pub fn game_command_line(game_command: &str, vfs_path: &str) -> (r: String)
    ensures
        r@ == replace_all_spec(game_command@, "%path%"@, vfs_path@),
{
    proof {
        reveal_strlit("%path%");
    }
    replace_all(game_command, "%path%", vfs_path)
}

/// Whether `pat` occurs in `s` at position `i`.
pub open spec fn occurs_at(s: Seq<char>, pat: Seq<char>, i: int) -> bool {
    0 <= i && i + pat.len() <= s.len() && s.subrange(i, i + pat.len()) == pat
}

proof fn lemma_no_match_unchanged(s: Seq<char>, pat: Seq<char>, rep: Seq<char>)
    requires
        pat.len() > 0,
        forall|i: int| !#[trigger] occurs_at(s, pat, i),
    ensures
        replace_all_spec(s, pat, rep) == s,
    decreases s.len(),
{
    if s.len() > 0 {
        let t = s.drop_first();
        assert forall|i: int| !#[trigger] occurs_at(t, pat, i) by {
            if 0 <= i && i + pat.len() <= t.len() {
                assert(t.subrange(i, i + pat.len()) =~= s.subrange(i + 1, i + 1 + pat.len()));
                assert(!occurs_at(s, pat, i + 1));
            }
        }
        lemma_no_match_unchanged(t, pat, rep);
        assert(!occurs_at(s, pat, 0));
        assert(seq![s[0]] + t =~= s);
    }
}

/// A command that does not mention `%path%` is run as it is.
pub proof fn law_command_without_placeholder(game_command: Seq<char>, vfs_path: Seq<char>)
    requires
        forall|i: int| !#[trigger] occurs_at(game_command, "%path%"@, i),
    ensures
        replace_all_spec(game_command, "%path%"@, vfs_path) == game_command,
{
    reveal_strlit("%path%");
    lemma_no_match_unchanged(game_command, "%path%"@, vfs_path);
}

} // verus!
