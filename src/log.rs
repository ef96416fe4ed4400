//! Log records and the text line each one becomes on the console.
use vstd::prelude::*;
use vstd::string::StringSliceAdditionalSpecFns;

verus! {

/// Severity of a log record, most severe first.
#[derive(Clone, Copy, Debug, PartialEq, Eq, Structural)]
pub enum Level {
    Error,
    Warn,
    Info,
    Debug,
    Trace,
}

/// The name a level is printed under.
pub open spec fn level_name(level: Level) -> &'static str {
    match level {
        Level::Error => "ERROR",
        Level::Warn => "WARN",
        Level::Info => "INFO",
        Level::Debug => "DEBUG",
        Level::Trace => "TRACE",
    }
}

impl Level {
    /// The name this level is printed under.
    pub fn name(&self) -> (r: &'static str)
        ensures
            r == level_name(*self),
    {
        match self {
            Level::Error => "ERROR",
            Level::Warn => "WARN",
            Level::Info => "INFO",
            Level::Debug => "DEBUG",
            Level::Trace => "TRACE",
        }
    }

    /// Records at this level reach the console: everything up to `Debug`.
    pub fn is_enabled(&self) -> (r: bool)
        ensures
            r == !(*self is Trace),
    {
        match self {
            Level::Trace => false,
            _ => true,
        }
    }
}

/// Where a record was emitted.
#[derive(Clone, Copy, Debug)]
pub struct Location {
    pub module: &'static str,
    pub file: &'static str,
    pub line: u32,
}

/// One log record.
#[derive(Clone, Copy, Debug)]
pub struct Record<'a> {
    pub location: Location,
    pub level: Level,
    pub args: &'a str,
    pub file: &'a str,
    pub line: u32,
}

/// The bytes of `level:module: message` followed by a newline.
pub open spec fn log_bytes(level: Level, module: &str, message: &str) -> Seq<u8> {
    level_name(level).spec_bytes() + seq![0x3Au8] + module.spec_bytes() + seq![0x3Au8, 0x20u8]
        + message.spec_bytes() + seq![0x0Au8]
}

fn push_all(out: &mut Vec<u8>, s: &str)
    ensures
        final(out)@ == old(out)@ + s.spec_bytes(),
{
    let b = s.as_bytes();
    let mut i: usize = 0;
    while i < b.len()
        invariant
            b@ == s.spec_bytes(),
            i <= b@.len(),
            out@ == old(out)@ + b@.take(i as int),
        decreases b@.len() - i,
    {
        out.push(b[i]);
        i = i + 1;
        assert(out@ =~= old(out)@ + b@.take(i as int));
    }
    assert(b@.take(b@.len() as int) =~= b@);
}

/// The console line for a record at `level` emitted from `loc`.
pub fn log(level: Level, loc: &Location, message: &str) -> (r: Vec<u8>)
    ensures
        r@ == log_bytes(level, loc.module, message),
{
    let mut out: Vec<u8> = Vec::new();
    push_all(&mut out, level.name());
    out.push(0x3Au8);
    push_all(&mut out, loc.module);
    out.push(0x3Au8);
    out.push(0x20u8);
    push_all(&mut out, message);
    out.push(0x0Au8);
    assert(out@ =~= log_bytes(level, loc.module, message));
    out
}

} // verus!
