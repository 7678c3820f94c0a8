//! The conversion of the source audio to the format that is played.

use vstd::prelude::*;
use vstd::string::*;

verus! {

/// An argument of the converter.
#[derive(Debug)]
pub enum Argument {
    Text(String),
    /// The path of the source audio.
    Source,
    /// The path of the converted audio.
    Output,
}

/// An argument as a value.
pub enum ArgumentView {
    Text(Seq<char>),
    Source,
    Output,
}

impl View for Argument {
    type V = ArgumentView;

    open spec fn view(&self) -> ArgumentView {
        match *self {
            Argument::Text(text) => ArgumentView::Text(text@),
            Argument::Source => ArgumentView::Source,
            Argument::Output => ArgumentView::Output,
        }
    }
}

/// How to come by the converted audio.
#[derive(Debug)]
pub enum Conversion {
    /// The source is already what is wanted.
    Reuse,
    /// The converter has to run with these arguments.
    Run(Vec<Argument>),
}

/// Why there is no converted audio.
#[derive(Clone, Copy, PartialEq, Eq, Structural, Debug)]
pub enum ConversionError {
    /// There is no file at the path of the source.
    InvalidSource,
    /// The converter ran and failed.
    ConverterFailed,
}

impl ConversionError {
    /// The message for the user, where `status` is what the converter exited with.
    pub open spec fn text(self, status: Seq<char>) -> Seq<char> {
        match self {
            ConversionError::InvalidSource => "Invalid path to source audio"@,
            ConversionError::ConverterFailed => "ffmpeg exited with status "@ + status,
        }
    }

    /// The message for the user, where `status` is what the converter exited with.
    pub fn message(self, status: &str) -> (m: String)
        ensures
            m@ == self.text(status@),
    {
        match self {
            ConversionError::InvalidSource => "Invalid path to source audio".to_owned(),
            ConversionError::ConverterFailed => {
                let mut m: String = "ffmpeg exited with status ".to_owned();
                m.append(status);
                m
            },
        }
    }
}

/// The arguments that take the option `name` with the value `value`, or none without a value.
pub open spec fn option_arguments(name: Seq<char>, value: Option<String>) -> Seq<ArgumentView> {
    match value {
        Some(text) => seq![ArgumentView::Text(name), ArgumentView::Text(text@)],
        None => Seq::empty(),
    }
}

/// The arguments for a conversion from `start` to `end`: nothing but errors is reported, an older
/// output is overwritten, the options for the start and the end come before the source that they
/// apply to, and the output comes last.
pub open spec fn arguments(start: Option<String>, end: Option<String>) -> Seq<ArgumentView> {
    seq![
        ArgumentView::Text("-hide_banner"@),
        ArgumentView::Text("-v"@),
        ArgumentView::Text("error"@),
        ArgumentView::Text("-y"@),
    ] + option_arguments("-ss"@, start) + option_arguments("-to"@, end) + seq![
        ArgumentView::Text("-i"@),
        ArgumentView::Source,
        ArgumentView::Output,
    ]
}

/// Arguments as values.
pub open spec fn argument_views(args: Seq<Argument>) -> Seq<ArgumentView> {
    Seq::new(args.len(), |i: int| args[i]@)
}

/// Appends an argument.
fn put(args: &mut Vec<Argument>, arg: Argument)
    ensures
        argument_views(final(args)@) == argument_views(old(args)@).push(arg@),
{
    args.push(arg);
    assert(argument_views(args@) =~= argument_views(old(args)@).push(arg@));
}

/// Appends an option, if it has a value.
fn put_option(args: &mut Vec<Argument>, name: &str, value: Option<String>)
    ensures
        argument_views(final(args)@) == argument_views(old(args)@) + option_arguments(name@, value),
{
    match value {
        Some(text) => {
            put(args, Argument::Text(name.to_owned()));
            put(args, Argument::Text(text));
        },
        None => {},
    }
    assert(argument_views(args@) =~= argument_views(old(args)@) + option_arguments(name@, value));
}

/// How to convert source audio with optional start time `start` and end time `end`, given whether
/// the source is a file and whether it is at the path of the output. A source at that path is
/// used as it is, unless it has to be cropped.
pub fn convert_to_wav(
    source_is_file: bool,
    source_is_output: bool,
    start: Option<String>,
    end: Option<String>,
) -> (conversion: Result<Conversion, ConversionError>)
    ensures
        match conversion {
            Err(e) => !source_is_file && e == ConversionError::InvalidSource,
            Ok(Conversion::Reuse) => source_is_file && source_is_output && start is None
                && end is None,
            Ok(Conversion::Run(args)) => {
                &&& source_is_file
                &&& !(source_is_output && start is None && end is None)
                &&& argument_views(args@) == arguments(start, end)
            },
        },
{
    if !source_is_file {
        return Err(ConversionError::InvalidSource);
    }
    if source_is_output && start.is_none() && end.is_none() {
        return Ok(Conversion::Reuse);
    }
    let ghost from: Option<String> = start;
    let ghost to: Option<String> = end;
    let mut args: Vec<Argument> = Vec::new();
    assert(argument_views(args@) =~= Seq::empty());
    put(&mut args, Argument::Text("-hide_banner".to_owned()));
    put(&mut args, Argument::Text("-v".to_owned()));
    put(&mut args, Argument::Text("error".to_owned()));
    put(&mut args, Argument::Text("-y".to_owned()));
    put_option(&mut args, "-ss", start);
    put_option(&mut args, "-to", end);
    put(&mut args, Argument::Text("-i".to_owned()));
    put(&mut args, Argument::Source);
    put(&mut args, Argument::Output);
    assert(argument_views(args@) =~= arguments(from, to));
    Ok(Conversion::Run(args))
}

/// What a run of the converter came to, given whether it exited successfully.
pub fn conversion_result(success: bool) -> (r: Result<(), ConversionError>)
    ensures
        r == (if success {
            Ok::<(), ConversionError>(())
        } else {
            Err(ConversionError::ConverterFailed)
        }),
{
    if success {
        Ok(())
    } else {
        Err(ConversionError::ConverterFailed)
    }
}

} // verus!
