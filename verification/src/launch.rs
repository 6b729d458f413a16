//! What the launcher starts for each way of playing: the programs, their
//! arguments, and which of them runs in the background. Finding the programs
//! on disk and running them is left to the caller.
use vstd::prelude::*;

verus! {

/// The address a local server listens on and a client joins by default.
pub open spec fn default_server_address() -> Seq<char> {
    "127.0.0.1:42677"@
}

/// The address a local server listens on and a client joins by default.
pub fn default_server_address_str() -> (r: &'static str)
    ensures
        r@ == default_server_address(),
{
    "127.0.0.1:42677"
}

/// How the player chose to play: alone on a save, or on a server.
#[derive(Debug, Clone, PartialEq, Eq)]
pub enum LaunchMode {
    /// Play alone; the save's path.
    Singleplayer(String),
    /// Join a server; its address.
    Multiplayer(String),
}

/// One of the game's programs, found next to the launcher.
#[derive(Debug, Clone, Copy, PartialEq, Eq, Structural)]
pub enum Program {
    Client,
    Server,
}

/// The file name of `p` next to the launcher.
pub open spec fn program_file_name(p: Program) -> Seq<char> {
    match p {
        Program::Client => "Ascendustry"@,
        Program::Server => "server"@,
    }
}

impl Program {
    /// The file name of the program next to the launcher.
    pub fn file_name(&self) -> (r: &'static str)
        ensures
            r@ == program_file_name(*self),
    {
        match self {
            Program::Client => "Ascendustry",
            Program::Server => "server",
        }
    }
}

/// A program to run with its arguments, in the background or waited for.
#[derive(Debug, Clone, PartialEq, Eq)]
pub struct LaunchCommand {
    pub program: Program,
    pub args: Vec<String>,
    pub background: bool,
}

/// The client joining `address`, waited for.
pub open spec fn is_client_command(c: LaunchCommand, address: Seq<char>) -> bool {
    &&& c.program == Program::Client
    &&& c.args@.len() == 2
    &&& c.args@[0]@ == "--address"@
    &&& c.args@[1]@ == address
    &&& !c.background
}

/// The server on save `save_path`, in the background.
pub open spec fn is_server_command(c: LaunchCommand, save_path: Seq<char>) -> bool {
    &&& c.program == Program::Server
    &&& c.args@.len() == 2
    &&& c.args@[0]@ == "-p"@
    &&& c.args@[1]@ == save_path
    &&& c.background
}

/// The client, joining `address`.
pub fn run_client(address: &str) -> (r: LaunchCommand)
    ensures
        is_client_command(r, address@),
{
    let mut args: Vec<String> = Vec::new();
    args.push(String::from_str("--address"));
    args.push(String::from_str(address));
    LaunchCommand { program: Program::Client, args, background: false }
}

/// The server, on save `save_path`.
pub fn run_server(save_path: &str) -> (r: LaunchCommand)
    ensures
        is_server_command(r, save_path@),
{
    let mut args: Vec<String> = Vec::new();
    args.push(String::from_str("-p"));
    args.push(String::from_str(save_path));
    LaunchCommand { program: Program::Server, args, background: true }
}

/// Joining the server at `address`: the client alone.
pub fn start_multiplayer(address: &str) -> (r: Vec<LaunchCommand>)
    ensures
        r@.len() == 1,
        is_client_command(r@[0], address@),
{
    let mut plan: Vec<LaunchCommand> = Vec::new();
    plan.push(run_client(address));
    plan
}

/// Playing alone on save `save_path`: a local server in the background, then
/// the client joining it.
pub fn start_singleplayer(save_path: &str) -> (r: Vec<LaunchCommand>)
    ensures
        r@.len() == 2,
        is_server_command(r@[0], save_path@),
        is_client_command(r@[1], default_server_address()),
{
    let mut plan: Vec<LaunchCommand> = Vec::new();
    plan.push(run_server(save_path));
    plan.push(run_client(default_server_address_str()));
    plan
}

/// The programs to start, in order, for the way of playing `mode`.
pub fn set_play_mode(mode: LaunchMode) -> (r: Vec<LaunchCommand>)
    ensures
        match mode {
            LaunchMode::Singleplayer(save) => {
                &&& r@.len() == 2
                &&& is_server_command(r@[0], save@)
                &&& is_client_command(r@[1], default_server_address())
            },
            LaunchMode::Multiplayer(address) => {
                &&& r@.len() == 1
                &&& is_client_command(r@[0], address@)
            },
        },
{
    match mode {
        LaunchMode::Singleplayer(save_path) => start_singleplayer(save_path.as_str()),
        LaunchMode::Multiplayer(address) => start_multiplayer(address.as_str()),
    }
}

} // verus!
