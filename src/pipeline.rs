use vstd::prelude::*;
use crate::config::Config;

verus! {

/// An external program to run: what to start, with which arguments, and what
/// to write to its standard input, if anything.
pub struct Invocation {
    pub program: String,
    pub args: Vec<String>,
    pub stdin: Option<String>,
}

/// The views of a list of arguments.
pub open spec fn arg_views(args: Seq<String>) -> Seq<Seq<char>> {
    args.map_values(|a: String| a@)
}

/// The three stages of the pipeline.
#[derive(Debug, Clone, Copy, PartialEq, Eq)]
pub enum Stage {
    Stt,
    Llm,
    Tts,
}

pub open spec fn stage_label(stage: Stage) -> Seq<char> {
    match stage {
        Stage::Stt => "STT"@,
        Stage::Llm => "LLM"@,
        Stage::Tts => "TTS"@,
    }
}

impl Stage {
    /// The short upper-case name of the stage.
    pub fn label(&self) -> (r: &'static str)
        ensures
            r@ == stage_label(*self),
    {
        match self {
            Stage::Stt => "STT",
            Stage::Llm => "LLM",
            Stage::Tts => "TTS",
        }
    }
}

fn push_str(args: &mut Vec<String>, a: &str)
    ensures
        arg_views(final(args)@) == arg_views(old(args)@).push(a@),
{
    let ghost before = args@;
    args.push(a.to_owned());
    assert(arg_views(args@) =~= arg_views(before).push(a@));
}

/// Speech to text: the configured interpreter runs the `voice` tool on the
/// given input, or on the configured audio file when none is given.
pub fn stt_invocation(config: &Config, input: Option<&str>) -> (r: Invocation)
    ensures
        r.program@ == config.python_env@,
        arg_views(r.args@) == seq![
            "voice"@,
            "stt"@,
            "-m"@,
            config.stt_model@,
            "-l"@,
            config.stt_lang@,
            match input {
                Some(i) => i@,
                None => config.audio_file@,
            },
        ],
        r.stdin is None,
{
    let mut args: Vec<String> = Vec::new();
    push_str(&mut args, "voice");
    push_str(&mut args, "stt");
    push_str(&mut args, "-m");
    push_str(&mut args, config.stt_model.as_str());
    push_str(&mut args, "-l");
    push_str(&mut args, config.stt_lang.as_str());
    match input {
        Some(i) => push_str(&mut args, i),
        None => push_str(&mut args, config.audio_file.as_str()),
    }
    assert(arg_views(args@) =~= seq![
        "voice"@,
        "stt"@,
        "-m"@,
        config.stt_model@,
        "-l"@,
        config.stt_lang@,
        match input {
            Some(i) => i@,
            None => config.audio_file@,
        },
    ]);
    Invocation { program: config.python_env.clone(), args, stdin: None }
}

/// Language model: `ollama run <model> <input>`, with the input also written
/// to its standard input.
pub fn llm_invocation(config: &Config, input: &str) -> (r: Invocation)
    ensures
        r.program@ == "ollama"@,
        arg_views(r.args@) == seq!["run"@, config.llm_model@, input@],
        r.stdin matches Some(s) && s@ == input@,
{
    let mut args: Vec<String> = Vec::new();
    push_str(&mut args, "run");
    push_str(&mut args, config.llm_model.as_str());
    push_str(&mut args, input);
    assert(arg_views(args@) =~= seq!["run"@, config.llm_model@, input@]);
    Invocation { program: "ollama".to_owned(), args, stdin: Some(input.to_owned()) }
}

/// Text to speech: the configured interpreter runs the `voice` tool with the
/// configured voice model, writing to the configured output.
pub fn tts_invocation(config: &Config, input: &str) -> (r: Invocation)
    ensures
        r.program@ == config.python_env@,
        arg_views(r.args@) == seq![
            "voice"@,
            "tts"@,
            input@,
            "-v"@,
            config.tts_model@,
            "-o"@,
            config.output@,
        ],
        r.stdin is None,
{
    let mut args: Vec<String> = Vec::new();
    push_str(&mut args, "voice");
    push_str(&mut args, "tts");
    push_str(&mut args, input);
    push_str(&mut args, "-v");
    push_str(&mut args, config.tts_model.as_str());
    push_str(&mut args, "-o");
    push_str(&mut args, config.output.as_str());
    assert(arg_views(args@) =~= seq![
        "voice"@,
        "tts"@,
        input@,
        "-v"@,
        config.tts_model@,
        "-o"@,
        config.output@,
    ]);
    Invocation { program: config.python_env.clone(), args, stdin: None }
}

/// What a finished stage yields: its standard output when the program
/// succeeded, otherwise `"<STAGE> processing failed"`.
pub fn stage_outcome(stage: Stage, success: bool, stdout: String) -> (r: Result<String, String>)
    ensures
        success ==> r == Ok::<String, String>(stdout),
        !success ==> (r matches Err(e) && e@ == stage_label(stage) + " processing failed"@),
{
    if success {
        Ok(stdout)
    } else {
        let mut e = String::from_str(stage.label());
        e.append(" processing failed");
        Err(e)
    }
}

/// The diagnostic logged when a stage fails: what the program printed on
/// each stream, failure lines in red.
pub fn failure_report(stage: Stage, stdout: &str, stderr: &str) -> (r: String)
    ensures
        r@ == "\x1b[31m"@ + stage_label(stage) + " processing failed:\x1b[0m\n\nSTDOUT: "@ + stdout@
            + "\n\x1b[31mSTDERR: "@ + stderr@ + "\x1b[0m"@,
{
    let mut r = String::from_str("\x1b[31m");
    r.append(stage.label());
    r.append(" processing failed:\x1b[0m\n\nSTDOUT: ");
    r.append(stdout);
    r.append("\n\x1b[31mSTDERR: ");
    r.append(stderr);
    r.append("\x1b[0m");
    r
}

/// One log line: the timestamp in magenta brackets, then the message.
pub fn log_entry(timestamp: &str, message: &str) -> (r: String)
    ensures
        r@ == "\x1b[35m["@ + timestamp@ + "]\x1b[0m "@ + message@ + "\n"@,
{
    let mut r = String::from_str("\x1b[35m[");
    r.append(timestamp);
    r.append("]\x1b[0m ");
    r.append(message);
    r.append("\n");
    r
}

} // verus!
