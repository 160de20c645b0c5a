//! Standard library parsing for the type checker.
//!
//! The definition files of one language version are parsed one after the
//! other into programs, and the first file that fails ends the load with a
//! message. Nothing is bound or registered here: the caller processes the
//! programs. Lexing and parsing are the parser's work and come in as a
//! function from one file to its program.

use vstd::prelude::*;

verus! {

/// One definition file of the standard library.
#[derive(Debug)]
pub struct DefinitionFile {
    /// The name of the file, for messages.
    pub name: String,
    /// The text of the file.
    pub source: String,
}

/// The step at which a definition file failed.
#[derive(Debug, Clone, Copy, PartialEq, Eq, Hash, Structural)]
pub enum LoadStage {
    /// The file could not be split into tokens.
    Lex,
    /// The tokens of the file could not be parsed.
    Parse,
}

/// Why a definition file gave no program: the step that failed, and the
/// parser's own account of the error.
#[derive(Debug)]
pub struct FileFailure {
    pub stage: LoadStage,
    pub detail: String,
}

/// The message for a file that failed, word for word.
pub open spec fn spec_failure_message(stage: LoadStage, filename: Seq<char>, detail: Seq<char>) -> Seq<
    char,
> {
    match stage {
        LoadStage::Lex => "Failed to lex "@ + filename + ": "@ + detail,
        LoadStage::Parse => "Failed to parse "@ + filename + ": "@ + detail,
    }
}

/// The message with which a load ends when the file `filename` fails at
/// `stage`; `detail` is the parser's own account of the error.
pub fn failure_message(stage: LoadStage, filename: &str, detail: &str) -> (text: String)
    ensures
        text@ == spec_failure_message(stage, filename@, detail@),
{
    let mut text = match stage {
        LoadStage::Lex => String::from_str("Failed to lex "),
        LoadStage::Parse => String::from_str("Failed to parse "),
    };
    text.append(filename);
    text.append(": ");
    text.append(detail);
    text
}

/// `parse_file` may have turned the file into the program.
pub open spec fn parsed_as<Program, F: Fn(&DefinitionFile) -> Result<Program, FileFailure>>(
    parse_file: F,
    file: DefinitionFile,
    program: Program,
) -> bool {
    call_ensures(parse_file, (&file,), Ok::<Program, FileFailure>(program))
}

/// `parse_file` may have failed on the file in a way of which `message` is
/// the message.
pub open spec fn failed_as<Program, F: Fn(&DefinitionFile) -> Result<Program, FileFailure>>(
    parse_file: F,
    file: DefinitionFile,
    message: Seq<char>,
) -> bool {
    exists|failure: FileFailure|
        #[trigger] call_ensures(parse_file, (&file,), Err::<Program, FileFailure>(failure)) && message
            == spec_failure_message(failure.stage, file.name@, failure.detail@)
}

/// `parse_file` may have turned the file into some program.
pub open spec fn parses<Program, F: Fn(&DefinitionFile) -> Result<Program, FileFailure>>(
    parse_file: F,
    file: DefinitionFile,
) -> bool {
    exists|program: Program| #[trigger] parsed_as(parse_file, file, program)
}

/// The load may have ended at file number `i` with the message `message`:
/// every file before it was parsed, and this one failed.
pub open spec fn ended_at<Program, F: Fn(&DefinitionFile) -> Result<Program, FileFailure>>(
    parse_file: F,
    files: Seq<DefinitionFile>,
    i: int,
    message: Seq<char>,
) -> bool {
    &&& 0 <= i < files.len()
    &&& failed_as::<Program, F>(parse_file, files[i], message)
    &&& forall|j: int| 0 <= j < i ==> parses::<Program, F>(parse_file, #[trigger] files[j])
}

/// The outcome `loaded` is right for the files `files`: it holds a program
/// for every file, in order, or the message of the first file that failed.
pub open spec fn loaded_as<Program, F: Fn(&DefinitionFile) -> Result<Program, FileFailure>>(
    parse_file: F,
    files: Seq<DefinitionFile>,
    loaded: Result<Vec<Program>, String>,
) -> bool {
    match loaded {
        Ok(programs) => {
            &&& programs.len() == files.len()
            &&& forall|i: int|
                0 <= i < files.len() ==> parsed_as(parse_file, files[i], #[trigger] programs[i])
        },
        Err(message) => exists|i: int| #[trigger] ended_at::<Program, F>(parse_file, files, i, message@),
    }
}

/// Parses the standard library definition files `files`, in order, each by
/// one call of `parse_file`.
///
/// Returns the programs of all files, in the order of the files, or the
/// message of the first file that failed. The files behind that one are not
/// parsed, and no programs come out of a load that failed.
pub fn parse_stdlib_files<Program, F: Fn(&DefinitionFile) -> Result<Program, FileFailure>>(
    files: &Vec<DefinitionFile>,
    parse_file: F,
) -> (loaded: Result<Vec<Program>, String>)
    requires
        forall|i: int| 0 <= i < files.len() ==> call_requires(parse_file, (&#[trigger] files[i],)),
    ensures
        loaded_as(parse_file, files@, loaded),
{
    let mut programs: Vec<Program> = Vec::new();
    let mut i: usize = 0;
    while i < files.len()
        invariant
            i <= files.len(),
            programs.len() == i,
            forall|j: int| 0 <= j < files.len() ==> call_requires(parse_file, (&#[trigger] files[j],)),
            forall|j: int| 0 <= j < i ==> parsed_as(parse_file, files[j], #[trigger] programs[j]),
        decreases files.len() - i,
    {
        match parse_file(&files[i]) {
            Ok(program) => {
                programs.push(program);
            },
            Err(failure) => {
                let message = failure_message(
                    failure.stage,
                    files[i].name.as_str(),
                    failure.detail.as_str(),
                );
                let loaded = Err(message);
                proof {
                    assert(failed_as::<Program, F>(parse_file, files@[i as int], loaded->Err_0@));
                    assert forall|j: int| 0 <= j < i implies parses::<Program, F>(
                        parse_file,
                        #[trigger] files@[j],
                    ) by {
                        assert(parsed_as(parse_file, files@[j], programs[j]));
                    }
                    assert(ended_at::<Program, F>(parse_file, files@, i as int, loaded->Err_0@));
                }
                return loaded;
            },
        }
        i = i + 1;
    }
    Ok(programs)
}

} // verus!
