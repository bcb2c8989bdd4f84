//! The shell's commands and their help entries.
use vstd::prelude::*;
use crate::text::same_text;

verus! {

/// The help text of one shell command.
pub struct CommandInfo {
    pub title: &'static str,
    pub cmd_args: &'static str,
    pub description: &'static str,
}

/// The commands of the shell.
#[derive(Debug, Clone, Copy, PartialEq, Eq, Structural)]
pub enum CommandKind {
    Exit,
    Echo,
    Pwd,
    Help,
    DriveSpace,
    FileTypeDist,
    LargestFiles,
    LargestFolder,
    RecentLargeFiles,
    OldLargeFiles,
    FullDriveAnalysis,
    EmptyFolders,
    Rescan,
    Unknown,
}

/// The command that the word `w` names.
pub open spec fn command_spec(w: Seq<char>) -> CommandKind {
    if w == "exit"@ {
        CommandKind::Exit
    } else if w == "echo"@ {
        CommandKind::Echo
    } else if w == "pwd"@ {
        CommandKind::Pwd
    } else if w == "help"@ {
        CommandKind::Help
    } else if w == "drive-space"@ {
        CommandKind::DriveSpace
    } else if w == "file-type-dist"@ {
        CommandKind::FileTypeDist
    } else if w == "largest-files"@ {
        CommandKind::LargestFiles
    } else if w == "largest-folder"@ {
        CommandKind::LargestFolder
    } else if w == "recent-large-files"@ {
        CommandKind::RecentLargeFiles
    } else if w == "old-large-files"@ {
        CommandKind::OldLargeFiles
    } else if w == "full-drive-analysis"@ {
        CommandKind::FullDriveAnalysis
    } else if w == "empty-folders"@ {
        CommandKind::EmptyFolders
    } else if w == "rescan"@ {
        CommandKind::Rescan
    } else {
        CommandKind::Unknown
    }
}

/// The command that the (lower-case) word `word` names.
pub fn command_kind(word: &str) -> (r: CommandKind)
    ensures
        r == command_spec(word@),
{
    if same_text(word, "exit") {
        CommandKind::Exit
    } else if same_text(word, "echo") {
        CommandKind::Echo
    } else if same_text(word, "pwd") {
        CommandKind::Pwd
    } else if same_text(word, "help") {
        CommandKind::Help
    } else if same_text(word, "drive-space") {
        CommandKind::DriveSpace
    } else if same_text(word, "file-type-dist") {
        CommandKind::FileTypeDist
    } else if same_text(word, "largest-files") {
        CommandKind::LargestFiles
    } else if same_text(word, "largest-folder") {
        CommandKind::LargestFolder
    } else if same_text(word, "recent-large-files") {
        CommandKind::RecentLargeFiles
    } else if same_text(word, "old-large-files") {
        CommandKind::OldLargeFiles
    } else if same_text(word, "full-drive-analysis") {
        CommandKind::FullDriveAnalysis
    } else if same_text(word, "empty-folders") {
        CommandKind::EmptyFolders
    } else if same_text(word, "rescan") {
        CommandKind::Rescan
    } else {
        CommandKind::Unknown
    }
}

} // verus!
