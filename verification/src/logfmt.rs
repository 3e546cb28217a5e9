//! The append-only log's record format, and the paths of staged and
//! promoted attachment files.

use vstd::prelude::*;

use crate::strutil::{spec_udec, u64_to_string};

verus! {

/// The attachment path lines of a record, each closed by a newline.
pub open spec fn spec_record_paths(paths: Seq<Seq<char>>, j: int) -> Seq<char>
    decreases paths.len() - j,
{
    if j < 0 || j >= paths.len() {
        Seq::empty()
    } else {
        paths[j] + "\n"@ + spec_record_paths(paths, j + 1)
    }
}

/// One log record: a separator line carrying the sender and timestamp, the
/// last known text when there is one, and the promoted attachment paths.
pub open spec fn spec_log_record(
    sender: Seq<char>,
    timestamp: Seq<char>,
    text: Option<Seq<char>>,
    paths: Seq<Seq<char>>,
) -> Seq<char> {
    "==="@ + sender + ":"@ + timestamp + "\n"@ + (match text {
        Option::Some(t) => "Text: "@ + t + "\n"@,
        Option::None => Seq::empty(),
    }) + "Attachments:\n"@ + spec_record_paths(paths, 0)
}

/// Writes one retraction record.
pub fn format_log_record(
    sender: &str,
    timestamp: &str,
    text: &Option<String>,
    attachment_paths: &Vec<String>,
) -> (r: String)
    ensures
        r@ == spec_log_record(
            sender@,
            timestamp@,
            match text {
                Option::Some(t) => Option::Some(t@),
                Option::None => Option::None,
            },
            crate::handle::strs_view(attachment_paths@),
        ),
{
    let ghost pview = crate::handle::strs_view(attachment_paths@);
    let mut out = String::new();
    out.append("===");
    out.append(sender);
    out.append(":");
    out.append(timestamp);
    out.append("\n");
    match text {
        Some(t) => {
            out.append("Text: ");
            out.append(t.as_str());
            out.append("\n");
        },
        None => {},
    }
    out.append("Attachments:\n");
    let ghost head = out@;
    let mut j: usize = 0;
    while j < attachment_paths.len()
        invariant
            j <= attachment_paths@.len(),
            pview == crate::handle::strs_view(attachment_paths@),
            out@ + spec_record_paths(pview, j as int) == head + spec_record_paths(pview, 0),
        decreases attachment_paths.len() - j,
    {
        out.append(attachment_paths[j].as_str());
        out.append("\n");
        proof {
            assert(out@ + spec_record_paths(pview, j as int + 1) =~= head + spec_record_paths(
                pview,
                0,
            ));
        }
        j += 1;
    }
    proof {
        assert(spec_record_paths(pview, pview.len() as int) =~= Seq::<char>::empty());
        assert(out@ =~= head + spec_record_paths(pview, 0));
        assert(out@ =~= spec_log_record(
            sender@,
            timestamp@,
            match text {
                Option::Some(t) => Option::Some(t@),
                Option::None => Option::None,
            },
            pview,
        ));
    }
    out
}

/// The on-disk path of a promoted attachment: the `permanent` directory
/// under the root, then the decimal number.
pub open spec fn spec_permanent_path(root: Seq<char>, n: u64) -> Seq<char> {
    root + "/permanent/"@ + spec_udec(n as int)
}

/// The on-disk path of a staged attachment, under the `tmp` directory of
/// the root.
pub open spec fn spec_tmp_path(root: Seq<char>, n: u64) -> Seq<char> {
    root + "/tmp/"@ + spec_udec(n as int)
}

/// The path a promoted attachment lives at.
pub fn permanent_path(root: &str, n: u64) -> (r: String)
    ensures
        r@ == spec_permanent_path(root@, n),
{
    let mut out = root.to_owned();
    out.append("/permanent/");
    out.append(u64_to_string(n).as_str());
    proof {
        assert(out@ =~= spec_permanent_path(root@, n));
    }
    out
}

/// The path a staged attachment lives at until promoted or discarded.
pub fn tmp_path(root: &str, n: u64) -> (r: String)
    ensures
        r@ == spec_tmp_path(root@, n),
{
    let mut out = root.to_owned();
    out.append("/tmp/");
    out.append(u64_to_string(n).as_str());
    proof {
        assert(out@ =~= spec_tmp_path(root@, n));
    }
    out
}

} // verus!
