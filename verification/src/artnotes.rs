//! The messages of the search for hook points.
use crate::art::{ArtError, ArtNote, Site, SiteError};
use crate::codescan::{BranchError, ExecuteError, ExecuteNote};
use crate::elf::SearchError;
use crate::text::{dec_text, hex_text, push_dec, push_hex};
use vstd::prelude::*;
use vstd::string::StringExecFns;

verus! {

/// A text and a number in base 16 behind it.
fn with_hex(text: &str, v: u64) -> (r: String)
    ensures
        r@ == text@ + hex_text(v as nat),
{
    let mut r: String = text.to_owned();
    push_hex(&mut r, v);
    r
}

/// A text and another one behind it.
fn with_text(text: &str, more: &String) -> (r: String)
    ensures
        r@ == text@ + more@,
{
    let mut r: String = text.to_owned();
    r.append(more.as_str());
    r
}

impl SearchError {
    /// What the error says.
    pub open spec fn text(self) -> Seq<char> {
        match self {
            SearchError::Segment(e) => e.text(),
            SearchError::PatternEmpty => "pattern is empty"@,
            SearchError::PatternNotFound => "pattern not found"@,
        }
    }

    /// The message of the error.
    pub fn message(&self) -> (r: String)
        ensures
            r@ == self.text(),
    {
        match self {
            SearchError::Segment(e) => e.message(),
            SearchError::PatternEmpty => "pattern is empty".to_owned(),
            SearchError::PatternNotFound => "pattern not found".to_owned(),
        }
    }
}

impl ExecuteError {
    /// What the error says.
    pub open spec fn text(self) -> Seq<char> {
        match self {
            ExecuteError::StringSegment(e) => "failed to find 'Interpreting ' string: "@ + e.text(),
            ExecuteError::StringNotFound =>
                "failed to find 'Interpreting ' string: string \"Interpreting \" not found"@,
            ExecuteError::NoCodeSegment => "code segment not found"@,
            ExecuteError::NoReferences => "no code references to 'Interpreting ' string found"@,
            ExecuteError::NoSixParameters =>
                "Execute function not found (no 6-parameter function found)"@,
        }
    }

    /// The message of the error.
    pub fn message(&self) -> (r: String)
        ensures
            r@ == self.text(),
    {
        match self {
            ExecuteError::StringSegment(e) => with_text(
                "failed to find 'Interpreting ' string: ",
                &e.message(),
            ),
            ExecuteError::StringNotFound =>
                "failed to find 'Interpreting ' string: string \"Interpreting \" not found".to_owned(),
            ExecuteError::NoCodeSegment => "code segment not found".to_owned(),
            ExecuteError::NoReferences =>
                "no code references to 'Interpreting ' string found".to_owned(),
            ExecuteError::NoSixParameters =>
                "Execute function not found (no 6-parameter function found)".to_owned(),
        }
    }
}

impl BranchError {
    /// What the error says.
    pub open spec fn text(self) -> Seq<char> {
        match self {
            BranchError::Segment(e) => e.text(),
            BranchError::NotFound => "ExecuteNterpWithClinitImpl branch pattern not found"@,
        }
    }

    /// The message of the error.
    pub fn message(&self) -> (r: String)
        ensures
            r@ == self.text(),
    {
        match self {
            BranchError::Segment(e) => e.message(),
            BranchError::NotFound => "ExecuteNterpWithClinitImpl branch pattern not found".to_owned(),
        }
    }
}

impl SiteError {
    /// What the error says.
    pub open spec fn text(self) -> Seq<char> {
        match self {
            SiteError::Search(e) => e.text(),
            SiteError::Branch(e) => e.text(),
        }
    }

    /// The message of the error.
    pub fn message(&self) -> (r: String)
        ensures
            r@ == self.text(),
    {
        match self {
            SiteError::Search(e) => e.message(),
            SiteError::Branch(e) => e.message(),
        }
    }
}

impl ArtError {
    /// What the error says.
    pub open spec fn text(self) -> Seq<char> {
        match self {
            ArtError::InvalidElf(reason) => "failed to parse ELF: "@ + reason@,
            ArtError::NoMainEntry =>
                "failed to locate any ART main entry in libart.so (Execute, ExecuteNterpImpl, ExecuteNterpWithClinitImpl)"@,
            ArtError::CodeOverrun => "code segment ends inside a branch window"@,
        }
    }

    /// The message of the error.
    pub fn message(&self) -> (r: String)
        ensures
            r@ == self.text(),
    {
        match self {
            ArtError::InvalidElf(reason) => with_text("failed to parse ELF: ", reason),
            ArtError::NoMainEntry =>
                "failed to locate any ART main entry in libart.so (Execute, ExecuteNterpImpl, ExecuteNterpWithClinitImpl)".to_owned(),
            ArtError::CodeOverrun => "code segment ends inside a branch window".to_owned(),
        }
    }
}

impl Site {
    /// How a report of several matches starts.
    pub open spec fn many(self) -> Seq<char> {
        match self {
            Site::NterpSignature => "[!] ExecuteNterpImpl signature matched "@,
            Site::ClinitBranch => "[!] ExecuteNterpWithClinitImpl branch scan matched "@,
            Site::ClinitSignature => "[!] ExecuteNterpWithClinitImpl signature matched "@,
        }
    }

    /// How a report of one match starts.
    pub open spec fn one(self) -> Seq<char> {
        match self {
            Site::NterpSignature => "[+] ExecuteNterpImpl found by signature at 0x"@,
            Site::ClinitBranch => "[+] ExecuteNterpWithClinitImpl found by branch scan at 0x"@,
            Site::ClinitSignature => "[+] ExecuteNterpWithClinitImpl found by signature at 0x"@,
        }
    }

    /// How a report of a failure starts.
    pub open spec fn none(self) -> Seq<char> {
        match self {
            Site::NterpSignature => "[-] ExecuteNterpImpl not found by symbol or signature: "@,
            Site::ClinitBranch => "[-] ExecuteNterpWithClinitImpl branch scan failed: "@,
            Site::ClinitSignature => "[-] ExecuteNterpWithClinitImpl signature scan failed: "@,
        }
    }

    fn many_label(self) -> (r: &'static str)
        ensures
            r@ == self.many(),
    {
        match self {
            Site::NterpSignature => "[!] ExecuteNterpImpl signature matched ",
            Site::ClinitBranch => "[!] ExecuteNterpWithClinitImpl branch scan matched ",
            Site::ClinitSignature => "[!] ExecuteNterpWithClinitImpl signature matched ",
        }
    }

    fn one_label(self) -> (r: &'static str)
        ensures
            r@ == self.one(),
    {
        match self {
            Site::NterpSignature => "[+] ExecuteNterpImpl found by signature at 0x",
            Site::ClinitBranch => "[+] ExecuteNterpWithClinitImpl found by branch scan at 0x",
            Site::ClinitSignature => "[+] ExecuteNterpWithClinitImpl found by signature at 0x",
        }
    }

    fn none_label(self) -> (r: &'static str)
        ensures
            r@ == self.none(),
    {
        match self {
            Site::NterpSignature => "[-] ExecuteNterpImpl not found by symbol or signature: ",
            Site::ClinitBranch => "[-] ExecuteNterpWithClinitImpl branch scan failed: ",
            Site::ClinitSignature => "[-] ExecuteNterpWithClinitImpl signature scan failed: ",
        }
    }
}

impl ArtNote {
    /// The line that reports the note.
    pub open spec fn text(self) -> Seq<char> {
        match self {
            ArtNote::Execute(ExecuteNote::StringAt(addr)) => "[+] Found 'Interpreting ' string at 0x"@
                + hex_text(addr as nat),
            ArtNote::Execute(ExecuteNote::References(count)) => "[+] Found "@ + dec_text(
                count as nat,
            ) + " references to 'Interpreting ' string"@,
            ArtNote::Execute(ExecuteNote::Function(addr)) => "[+] Execute function found at 0x"@
                + hex_text(addr as nat) + " (6 parameters, uses W5)"@,
            ArtNote::ExecuteFound(addr) => "[+] Execute found by 'Interpreting ' string at 0x"@
                + hex_text(addr as nat),
            ArtNote::ExecuteMissing(e) =>
                "[-] Execute not found by symbol or string reference: "@ + e.text(),
            ArtNote::Matched { site, count, addr } => if count > 1 {
                site.many() + dec_text(count as nat) + " sites; using first: 0x"@ + hex_text(
                    addr as nat,
                )
            } else {
                site.one() + hex_text(addr as nat)
            },
            ArtNote::NotMatched { site, error } => site.none() + error.text(),
            ArtNote::InvokeMissing(e) => "[-] nterp_op_invoke_* pattern not found: "@ + e.text(),
            ArtNote::VerifyClassMissing =>
                "[!] VerifyClass not found; continuing without VerifyClass hook"@,
        }
    }

    /// The line that reports the note.
    pub fn message(&self) -> (r: String)
        ensures
            r@ == self.text(),
    {
        match self {
            ArtNote::Execute(ExecuteNote::StringAt(addr)) => with_hex(
                "[+] Found 'Interpreting ' string at 0x",
                *addr,
            ),
            ArtNote::Execute(ExecuteNote::References(count)) => {
                let mut r: String = "[+] Found ".to_owned();
                push_dec(&mut r, *count as u64);
                r.append(" references to 'Interpreting ' string");
                r
            },
            ArtNote::Execute(ExecuteNote::Function(addr)) => {
                let mut r: String = with_hex("[+] Execute function found at 0x", *addr);
                r.append(" (6 parameters, uses W5)");
                r
            },
            ArtNote::ExecuteFound(addr) => with_hex(
                "[+] Execute found by 'Interpreting ' string at 0x",
                *addr,
            ),
            ArtNote::ExecuteMissing(e) => with_text(
                "[-] Execute not found by symbol or string reference: ",
                &e.message(),
            ),
            ArtNote::Matched { site, count, addr } => if *count > 1 {
                let mut r: String = site.many_label().to_owned();
                push_dec(&mut r, *count as u64);
                r.append(" sites; using first: 0x");
                push_hex(&mut r, *addr);
                r
            } else {
                with_hex(site.one_label(), *addr)
            },
            ArtNote::NotMatched { site, error } => with_text(site.none_label(), &error.message()),
            ArtNote::InvokeMissing(e) => with_text(
                "[-] nterp_op_invoke_* pattern not found: ",
                &e.message(),
            ),
            ArtNote::VerifyClassMissing =>
                "[!] VerifyClass not found; continuing without VerifyClass hook".to_owned(),
        }
    }
}

/// A report of matches ends with the address that is used. It warns where there were several
/// to choose from, and only there.
pub proof fn law_several_matches_are_told(site: Site, count: usize, addr: u64)
    ensures
        ({
            let text = (ArtNote::Matched { site, count, addr }).text();
            let shown = hex_text(addr as nat);
            &&& text.len() > shown.len() + 3
            &&& text.skip(text.len() - shown.len()) == shown
            &&& text[0] == '[' && text[2] == ']'
            &&& count >= 2 ==> text[1] == '!'
            &&& count <= 1 ==> text[1] == '+'
        }),
{
    reveal_strlit("[!] ExecuteNterpImpl signature matched ");
    reveal_strlit("[!] ExecuteNterpWithClinitImpl branch scan matched ");
    reveal_strlit("[!] ExecuteNterpWithClinitImpl signature matched ");
    reveal_strlit("[+] ExecuteNterpImpl found by signature at 0x");
    reveal_strlit("[+] ExecuteNterpWithClinitImpl found by branch scan at 0x");
    reveal_strlit("[+] ExecuteNterpWithClinitImpl found by signature at 0x");
    let text = (ArtNote::Matched { site, count, addr }).text();
    let shown = hex_text(addr as nat);
    assert(text.skip(text.len() - shown.len()) =~= shown);
}

} // verus!
