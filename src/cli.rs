use vstd::prelude::*;

verus! {

/// The command line: how much debugging output is wanted, and the command to run.
pub struct Cli {
    debug: u8,
    pub command: Commands,
}

/// The commands of the command line.
pub enum Commands {
    /// Print the tokens of a file.
    Lex { file: String },
}

/// What can go wrong with the command line's arguments.
#[derive(Debug)]
pub enum CliError {
    FileNotFoundError(String),
}

/// What can go wrong while running a command.
#[derive(Debug)]
pub enum FunctionError {
    InvalidYaml(String),
}

impl Cli {
    pub fn new(debug: u8, command: Commands) -> (r: Cli)
        ensures
            r.spec_debug() == debug,
            r.spec_command() == command,
    {
        Cli { debug, command }
    }

    pub closed spec fn spec_debug(&self) -> u8 {
        self.debug
    }

    pub closed spec fn spec_command(&self) -> Commands {
        self.command
    }

    pub fn get_debug(&self) -> (r: u8)
        ensures
            r == self.spec_debug(),
    {
        self.debug
    }

    /// The file of the command, if it names an existing regular file. Whether it does
    /// is asked of the file system by the caller, which hands over the answers.
    pub fn get_file_path(&self, path_exists: bool, path_is_file: bool) -> (r: Result<String, CliError>)
        ensures
            match self.spec_command() {
                Commands::Lex { file } => match r {
                    Ok(p) => path_exists && path_is_file && p@ == file@,
                    Err(CliError::FileNotFoundError(p)) => !(path_exists && path_is_file) && p@ == file@,
                },
            },
    {
        let Commands::Lex { file } = &self.command;
        if !path_exists || !path_is_file {
            Err(CliError::FileNotFoundError(file.clone()))
        } else {
            Ok(file.clone())
        }
    }
}

} // verus!
