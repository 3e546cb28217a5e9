//! The application's resolved configuration and caches: chat and
//! participant maps with their deduplicated identifiers, and the helpers
//! that name senders, conversations and attachment paths.

use vstd::prelude::*;

use crate::handle::{pairs_view, spec_assoc_lookup, spec_key_idx};
use crate::query_context::QueryContext;

verus! {

/// The source platform a database comes from.
#[derive(Debug, Clone, Copy, PartialEq, Eq, Structural)]
pub enum Platform {
    MacOs,
    Ios,
}

/// How attachments are handled during an export.
#[derive(Debug, Clone, Copy, PartialEq, Eq, Structural)]
pub enum AttachmentManagerMode {
    Disabled,
    Basic,
    Full,
}

/// App configuration options.
#[derive(Debug)]
pub struct Options {
    pub export_path: String,
    pub attachment_root: Option<String>,
    pub db_path: String,
    pub platform: Platform,
    pub query_context: QueryContext,
    pub custom_name: Option<String>,
    pub use_caller_id: bool,
    pub attachment_manager_mode: AttachmentManagerMode,
    pub conversation_filter: Option<String>,
}

/// Represents a single row in the `chat` table.
#[derive(Debug, Clone, PartialEq, Eq)]
pub struct Chat {
    pub rowid: i32,
    pub chat_identifier: String,
    pub display_name: Option<String>,
}

/// Stores the application state: the caches over the `chat` and `handle`
/// tables and the resolved options.
#[derive(Debug)]
pub struct Config {
    /// Map of chatroom ID to chatroom information.
    pub chatrooms: Vec<(i32, Chat)>,
    /// Map of chatroom ID to an internal unique chatroom ID.
    pub real_chatrooms: Vec<(i32, i32)>,
    /// Map of chatroom ID to chatroom participants.
    pub chatroom_participants: Vec<(i32, Vec<i32>)>,
    /// Map of participant ID to contact info.
    pub participants: Vec<(i32, String)>,
    /// Map of participant ID to an internal unique participant ID.
    pub real_participants: Vec<(i32, i32)>,
    /// App configuration options.
    pub options: Options,
    /// Global UTC offset in seconds used to render dates.
    pub offset: i64,
}

/// The view of an optional string.
pub open spec fn opt_str_view(o: Option<String>) -> Option<Seq<char>> {
    match o {
        Option::Some(s) => Option::Some(s@),
        Option::None => Option::None,
    }
}

/// The first index at or after `j` with the key, over integer pairs.
pub open spec fn spec_ii_idx(s: Seq<(i32, i32)>, k: i32, j: int) -> int
    decreases s.len() - j,
{
    if j < 0 || j >= s.len() {
        s.len() as int
    } else if s[j].0 == k {
        j
    } else {
        spec_ii_idx(s, k, j + 1)
    }
}

/// The integer stored under a key, if any.
pub open spec fn spec_ii_lookup(s: Seq<(i32, i32)>, k: i32) -> Option<i32> {
    let f = spec_ii_idx(s, k, 0);
    if f < s.len() {
        Option::Some(s[f].1)
    } else {
        Option::None
    }
}

/// The first index at or after `j` with the key, over chat entries.
pub open spec fn spec_chat_idx(s: Seq<(i32, Chat)>, k: i32, j: int) -> int
    decreases s.len() - j,
{
    if j < 0 || j >= s.len() {
        s.len() as int
    } else if s[j].0 == k {
        j
    } else {
        spec_chat_idx(s, k, j + 1)
    }
}

/// The first index at or after `j` with the key, over participant lists.
pub open spec fn spec_members_idx(s: Seq<(i32, Vec<i32>)>, k: i32, j: int) -> int
    decreases s.len() - j,
{
    if j < 0 || j >= s.len() {
        s.len() as int
    } else if s[j].0 == k {
        j
    } else {
        spec_members_idx(s, k, j + 1)
    }
}

/// Who a message reads as sent by: the owner's chosen name (or caller ID)
/// for outgoing messages, the cached display of the handle otherwise, and
/// `Unknown` for a handle the cache does not know.
pub open spec fn spec_who(
    participants: Seq<(i32, Seq<char>)>,
    custom_name: Option<Seq<char>>,
    use_caller_id: bool,
    handle_id: Option<i32>,
    is_from_me: bool,
    destination_caller_id: Option<Seq<char>>,
) -> Seq<char> {
    if is_from_me {
        if use_caller_id {
            match destination_caller_id {
                Option::Some(c) => c,
                Option::None => "Me"@,
            }
        } else {
            match custom_name {
                Option::Some(c) => c,
                Option::None => "Me"@,
            }
        }
    } else {
        match handle_id {
            Option::Some(h) => match spec_assoc_lookup(participants, h) {
                Option::Some(c) => c,
                Option::None => "Unknown"@,
            },
            Option::None => "Unknown"@,
        }
    }
}

impl Config {
    /// Determine who sent a message.
    pub fn who(
        &self,
        handle_id: Option<i32>,
        is_from_me: bool,
        destination_caller_id: &Option<String>,
    ) -> (r: String)
        ensures
            r@ == spec_who(
                pairs_view(self.participants@),
                opt_str_view(self.options.custom_name),
                self.options.use_caller_id,
                handle_id,
                is_from_me,
                opt_str_view(*destination_caller_id),
            ),
    {
        if is_from_me {
            if self.options.use_caller_id {
                return match destination_caller_id {
                    Some(c) => c.clone(),
                    None => "Me".to_owned(),
                };
            }
            return match &self.options.custom_name {
                Some(c) => c.clone(),
                None => "Me".to_owned(),
            };
        }
        let h = match handle_id {
            Some(h) => h,
            None => {
                return "Unknown".to_owned();
            },
        };
        let ghost pv = pairs_view(self.participants@);
        let mut f: usize = 0;
        while f < self.participants.len() && self.participants[f].0 != h
            invariant
                f <= self.participants@.len(),
                pv == pairs_view(self.participants@),
                spec_key_idx(pv, h, 0) == spec_key_idx(pv, h, f as int),
            decreases self.participants@.len() - f,
        {
            f += 1;
        }
        if f < self.participants.len() {
            proof {
                assert(spec_key_idx(pv, h, 0) == f as int);
            }
            self.participants[f].1.clone()
        } else {
            proof {
                assert(spec_key_idx(pv, h, 0) == pv.len() as int);
            }
            "Unknown".to_owned()
        }
    }

    /// Get a deduplicated chat ID together with the chat, when the message
    /// names a chat the cache knows.
    pub fn conversation(&self, chat_id: Option<i32>, deleted_from: Option<i32>) -> (r: Option<
        (&Chat, i32),
    >)
        ensures
            ({
                let cid = if chat_id is Some {
                    chat_id
                } else {
                    deleted_from
                };
                match cid {
                    Option::Some(c) => {
                        let f = spec_chat_idx(self.chatrooms@, c, 0);
                        if f < self.chatrooms@.len() {
                            match spec_ii_lookup(self.real_chatrooms@, c) {
                                Option::Some(dense) => r matches Some(pair) && *(pair.0)
                                    == self.chatrooms@[f].1 && pair.1 == dense,
                                Option::None => r is None,
                            }
                        } else {
                            r is None
                        }
                    },
                    Option::None => r is None,
                }
            }),
    {
        let cid = match chat_id {
            Some(c) => c,
            None => match deleted_from {
                Some(c) => c,
                None => {
                    return None;
                },
            },
        };
        let ghost cv = self.chatrooms@;
        let mut f: usize = 0;
        while f < self.chatrooms.len() && self.chatrooms[f].0 != cid
            invariant
                f <= cv.len(),
                cv == self.chatrooms@,
                spec_chat_idx(cv, cid, 0) == spec_chat_idx(cv, cid, f as int),
            decreases cv.len() - f,
        {
            f += 1;
        }
        if f >= self.chatrooms.len() {
            proof {
                assert(spec_chat_idx(cv, cid, 0) == cv.len() as int);
            }
            return None;
        }
        proof {
            assert(spec_chat_idx(cv, cid, 0) == f as int);
        }
        let ghost rv = self.real_chatrooms@;
        let mut g: usize = 0;
        while g < self.real_chatrooms.len() && self.real_chatrooms[g].0 != cid
            invariant
                g <= rv.len(),
                rv == self.real_chatrooms@,
                spec_ii_idx(rv, cid, 0) == spec_ii_idx(rv, cid, g as int),
            decreases rv.len() - g,
        {
            g += 1;
        }
        if g < self.real_chatrooms.len() {
            proof {
                assert(spec_ii_idx(rv, cid, 0) == g as int);
            }
            Some((&self.chatrooms[f].1, self.real_chatrooms[g].1))
        } else {
            proof {
                assert(spec_ii_idx(rv, cid, 0) == rv.len() as int);
            }
            None
        }
    }

    /// Get the attachment directory for the current session.
    pub fn attachment_path(&self) -> (r: String)
        ensures
            r@ == self.options.export_path@ + "/attachments"@,
    {
        let mut out = self.options.export_path.clone();
        out.append("/attachments");
        out
    }

    /// Get the attachment directory name for a specific chat ID: the
    /// deduplicated chat number, or `orphaned` for a chat the cache does
    /// not know.
    pub fn conversation_attachment_path(&self, chat_id: Option<i32>) -> (r: String)
        ensures
            ({
                match chat_id {
                    Option::Some(c) => match spec_ii_lookup(self.real_chatrooms@, c) {
                        Option::Some(dense) => r@ == crate::strutil::spec_idec(dense as int),
                        Option::None => r@ == "orphaned"@,
                    },
                    Option::None => r@ == "orphaned"@,
                }
            }),
    {
        if let Some(c) = chat_id {
            let ghost rv = self.real_chatrooms@;
            let mut g: usize = 0;
            while g < self.real_chatrooms.len() && self.real_chatrooms[g].0 != c
                invariant
                    g <= rv.len(),
                    rv == self.real_chatrooms@,
                    spec_ii_idx(rv, c, 0) == spec_ii_idx(rv, c, g as int),
                decreases rv.len() - g,
            {
                g += 1;
            }
            if g < self.real_chatrooms.len() {
                proof {
                    assert(spec_ii_idx(rv, c, 0) == g as int);
                }
                return crate::strutil::i64_to_string(self.real_chatrooms[g].1 as i64);
            }
            proof {
                assert(spec_ii_idx(rv, c, 0) == rv.len() as int);
            }
        }
        "orphaned".to_owned()
    }
}

/// Whether `path` begins with `prefix` followed by a path separator.
pub open spec fn spec_under_dir(path: Seq<char>, prefix: Seq<char>) -> bool {
    path.len() > prefix.len() && path.take(prefix.len() as int) == prefix && path[prefix.len() as int]
        == '/'
}

impl Config {
    /// Get a path relative to the export directory for the provided file,
    /// or the path itself when it does not sit under the export directory.
    pub fn relative_path(&self, path: &str) -> (r: String)
        ensures
            spec_under_dir(path@, self.options.export_path@) ==> r@ == path@.skip(
                self.options.export_path@.len() as int + 1,
            ),
            !spec_under_dir(path@, self.options.export_path@) ==> r@ == path@,
    {
        let prefix = &self.options.export_path;
        let path_len = path.unicode_len();
        let prefix_len = prefix.as_str().unicode_len();
        if path_len <= prefix_len {
            return path.to_owned();
        }
        let mut i: usize = 0;
        while i < prefix_len
            invariant
                i <= prefix_len,
                prefix_len < path_len == path@.len(),
                prefix_len == prefix@.len(),
                prefix@ == self.options.export_path@,
                forall|k: int| 0 <= k < i ==> path@[k] == prefix@[k],
            decreases prefix_len - i,
        {
            if path.get_char(i) != prefix.as_str().get_char(i) {
                proof {
                    assert(path@.take(prefix@.len() as int)[i as int] != prefix@[i as int]);
                }
                return path.to_owned();
            }
            i += 1;
        }
        if path.get_char(prefix_len) != '/' {
            return path.to_owned();
        }
        proof {
            assert(path@.take(prefix@.len() as int) =~= prefix@);
        }
        let rest = path.substring_char(prefix_len + 1, path_len);
        rest.to_owned()
    }
}

/// Represents a single row in the `attachment` table, together with the
/// paths the application resolved for it: where a copy was placed, and
/// where the platform resolver located the source on disk.
#[derive(Debug, Clone, PartialEq, Eq)]
pub struct Attachment {
    pub rowid: i32,
    pub filename: Option<String>,
    pub uti: Option<String>,
    pub mime_type: Option<String>,
    pub transfer_name: Option<String>,
    pub total_bytes: u64,
    pub is_sticker: bool,
    pub hide_attachment: i32,
    pub emoji_description: Option<String>,
    pub copied_path: Option<String>,
    /// The on-disk source the platform resolver located, when it found
    /// one.
    pub resolved_path: Option<String>,
}

/// The path text a formatted message shows for an attachment.
pub open spec fn spec_message_attachment_path(export_path: Seq<char>, a: Attachment) -> Seq<char> {
    match a.copied_path {
        Option::Some(p) => if spec_under_dir(p@, export_path) {
            p@.skip(export_path.len() as int + 1)
        } else {
            p@
        },
        Option::None => match a.resolved_path {
            Option::Some(p) => p@,
            Option::None => match a.filename {
                Option::Some(f) => f@,
                Option::None => match a.transfer_name {
                    Option::Some(t) => t@,
                    Option::None => "Attachment missing name metadata!"@,
                },
            },
        },
    }
}

impl Config {
    /// Generate a file path for an attachment: the copied file when one
    /// was made (relative to the export directory when it sits under it),
    /// the resolved source otherwise, and the stored names as a last
    /// resort.
    pub fn message_attachment_path(&self, attachment: &Attachment) -> (r: String)
        ensures
            r@ == spec_message_attachment_path(self.options.export_path@, *attachment),
    {
        match &attachment.copied_path {
            Some(p) => self.relative_path(p.as_str()),
            None => match &attachment.resolved_path {
                Some(p) => p.clone(),
                None => match &attachment.filename {
                    Some(f) => f.clone(),
                    None => match &attachment.transfer_name {
                        Some(t) => t.clone(),
                        None => "Attachment missing name metadata!".to_owned(),
                    },
                },
            },
        }
    }
}

/// A character rewritten so file names stay filesystem safe: path
/// separators, wildcard and redirection characters, and control
/// characters become underscores.
pub open spec fn spec_sanitize_char(c: char) -> char {
    if c == '/' || c == '\\' || c == ':' || c == '*' || c == '?' || c == '"' || c as int == 60
        || c as int == 62 || c == '|' || (c as int) < 32 {
        '_'
    } else {
        c
    }
}

/// A name with every filesystem-unsafe character replaced.
pub open spec fn spec_sanitize(s: Seq<char>) -> Seq<char> {
    Seq::new(s.len(), |i: int| spec_sanitize_char(s[i]))
}

/// Replaces filesystem-unsafe characters with underscores.
pub fn sanitize_filename(name: &str) -> (r: String)
    ensures
        r@ == spec_sanitize(name@),
{
    let len = name.unicode_len();
    let mut out = String::new();
    let mut i: usize = 0;
    while i < len
        invariant
            i <= len == name@.len(),
            out@ =~= spec_sanitize(name@).take(i as int),
        decreases len - i,
    {
        let c = name.get_char(i);
        let code = c as u32;
        let mapped = if c == '/' || c == '\\' || c == ':' || c == '*' || c == '?' || c == '"' || code
            == 60 || code == 62 || c == '|' || code < 32 {
            '_'
        } else {
            c
        };
        crate::strutil::push_char(&mut out, mapped);
        proof {
            assert(out@ =~= spec_sanitize(name@).take(i as int + 1));
        }
        i += 1;
    }
    proof {
        assert(spec_sanitize(name@).take(len as int) =~= spec_sanitize(name@));
    }
    out
}

/// The most characters a chat file name may hold before truncation.
pub const MAX_LENGTH: usize = 235;

/// The running state of the participant-name builder: the names joined so
/// far and how many were taken.
pub open spec fn spec_parts_filename(
    participants_map: Seq<(i32, Seq<char>)>,
    participants: Seq<i32>,
    i: int,
    out: Seq<char>,
    added: int,
) -> Seq<char>
    decreases participants.len() - i,
{
    if i < 0 || i >= participants.len() {
        out
    } else {
        let display = match spec_assoc_lookup(participants_map, participants[i]) {
            Option::Some(c) => c,
            Option::None => "Unknown"@,
        };
        if display.len() + out.len() < 235 {
            let joined = if out.len() == 0 {
                display
            } else {
                out + ", "@ + display
            };
            spec_parts_filename(participants_map, participants, i + 1, joined, added + 1)
        } else {
            let extra = ", and "@ + crate::strutil::spec_udec(participants.len() - added)
                + " others"@;
            if extra.len() + out.len() >= 235 {
                out.take(235 - extra.len()) + extra
            } else if out.len() == 0 {
                display.take(235)
            } else {
                out + extra
            }
        }
    }
}

impl Config {
    /// Generate a filename from a set of participants, truncating if the
    /// name grows too long: either every display name joined by commas, or
    /// as many as fit followed by a note counting the rest.
    pub fn filename_from_participants(&self, participants: &Vec<i32>) -> (r: String)
        requires
            participants@.len() < 0x1000_0000,
        ensures
            r@ == spec_parts_filename(
                pairs_view(self.participants@),
                participants@,
                0,
                Seq::empty(),
                0,
            ),
    {
        let ghost pmap = pairs_view(self.participants@);
        let ghost target = spec_parts_filename(pmap, participants@, 0, Seq::empty(), 0);
        let mut out = String::new();
        let mut out_chars: usize = 0;
        let mut added: usize = 0;
        let mut i: usize = 0;
        while i < participants.len()
            invariant
                i <= participants@.len() < 0x1000_0000,
                pmap == pairs_view(self.participants@),
                added <= i,
                out_chars == out@.len(),
                out_chars <= 236,
                target == spec_parts_filename(pmap, participants@, 0, Seq::empty(), 0),
                spec_parts_filename(pmap, participants@, i as int, out@, added as int) == target,
            decreases participants.len() - i,
        {
            let ghost out_pre = out@;
            let ghost added_pre = added as int;
            let display = self.who(Some(participants[i]), false, &None);
            let display_chars = display.as_str().unicode_len();
            proof {
                assert(spec_who(
                    pmap,
                    opt_str_view(self.options.custom_name),
                    self.options.use_caller_id,
                    Some(participants@[i as int]),
                    false,
                    opt_str_view(Option::<String>::None),
                ) == match spec_assoc_lookup(pmap, participants@[i as int]) {
                    Option::Some(c) => c,
                    Option::None => "Unknown"@,
                });
            }
            if ((display_chars as u128) + (out_chars as u128)) < 235 {
                if out_chars > 0 {
                    out.append(", ");
                    out_chars += 2;
                }
                out.append(display.as_str());
                out_chars += display_chars;
                added += 1;
                proof {
                    reveal_strlit(", ");
                    if out_pre.len() == 0 {
                        assert(out@ =~= display@);
                    } else {
                        assert(out@ =~= out_pre + ", "@ + display@);
                    }
                }
            } else {
                let mut extra = ", and ".to_owned();
                extra.append(
                    crate::strutil::u64_to_string((participants.len() - added) as u64).as_str(),
                );
                extra.append(" others");
                let extra_chars = extra.as_str().unicode_len();
                proof {
                    reveal_strlit(", and ");
                    reveal_strlit(" others");
                    crate::strutil::lemma_u64_digits((participants@.len() - added as int) as u64);
                    assert(extra@ =~= ", and "@ + crate::strutil::spec_udec(
                        participants@.len() - added_pre,
                    ) + " others"@);
                    assert(extra@.len() <= 33);
                }
                if extra_chars + out_chars >= MAX_LENGTH {
                    let keep = out.as_str().substring_char(0, MAX_LENGTH - extra_chars);
                    let mut clipped = keep.to_owned();
                    clipped.append(extra.as_str());
                    proof {
                        let extra_spec = ", and "@ + crate::strutil::spec_udec(
                            participants@.len() - added_pre,
                        ) + " others"@;
                        assert(extra@ == extra_spec);
                        assert(clipped@ =~= out_pre.take(235 - extra_spec.len()) + extra_spec);
                        assert(spec_parts_filename(pmap, participants@, i as int, out_pre, added_pre)
                            == out_pre.take(235 - extra_spec.len()) + extra_spec);
                    }
                    return clipped;
                } else if out_chars == 0 {
                    let clipped = display.as_str().substring_char(0, MAX_LENGTH);
                    proof {
                        assert(clipped@ =~= display@.take(235));
                    }
                    return clipped.to_owned();
                } else {
                    out.append(extra.as_str());
                    proof {
                        let extra_spec = ", and "@ + crate::strutil::spec_udec(
                            participants@.len() - added_pre,
                        ) + " others"@;
                        assert(extra@ == extra_spec);
                        assert(out@ =~= out_pre + extra_spec);
                        assert(spec_parts_filename(pmap, participants@, i as int, out_pre, added_pre)
                            == out_pre + extra_spec);
                    }
                    return out;
                }
            }
            i += 1;
        }
        out
    }

    /// Get a filename for a chat: its display name (truncated when very
    /// long) followed by its rowid when it has one, the joined participant
    /// names otherwise, and the raw chat identifier as a last resort; the
    /// result is sanitized for the filesystem.
    pub fn filename(&self, chatroom: &Chat) -> (r: String)
        requires
            forall|k: int|
                0 <= k < self.chatroom_participants@.len() ==> (
                #[trigger] self.chatroom_participants@[k]).1@.len() < 0x1000_0000,
        ensures
            ({
                let base = match chatroom.display_name {
                    Option::Some(name) => if name@.len() > 0 {
                        Option::Some(
                            (if name@.len() <= 235 {
                                name@
                            } else {
                                name@.take(235)
                            }) + " - "@ + crate::strutil::spec_idec(chatroom.rowid as int),
                        )
                    } else {
                        Option::None
                    },
                    Option::None => Option::None,
                };
                match base {
                    Option::Some(b) => r@ == spec_sanitize(b),
                    Option::None => {
                        let f = spec_members_idx(self.chatroom_participants@, chatroom.rowid, 0);
                        if f < self.chatroom_participants@.len() {
                            r@ == spec_sanitize(
                                spec_parts_filename(
                                    pairs_view(self.participants@),
                                    self.chatroom_participants@[f].1@,
                                    0,
                                    Seq::empty(),
                                    0,
                                ),
                            )
                        } else {
                            r@ == spec_sanitize(chatroom.chat_identifier@)
                        }
                    },
                }
            }),
    {
        let has_name = match &chatroom.display_name {
            Some(name) => name.as_str().unicode_len() > 0,
            None => false,
        };
        if has_name {
            let name = match &chatroom.display_name {
                Some(name) => name,
                None => {
                    return String::new();
                },
            };
            let name_chars = name.as_str().unicode_len();
            let mut base = if name_chars <= MAX_LENGTH {
                name.clone()
            } else {
                name.as_str().substring_char(0, MAX_LENGTH).to_owned()
            };
            base.append(" - ");
            base.append(crate::strutil::i64_to_string(chatroom.rowid as i64).as_str());
            proof {
                reveal_strlit(" - ");
            }
            return sanitize_filename(base.as_str());
        }
        let ghost cp = self.chatroom_participants@;
        let mut f: usize = 0;
        while f < self.chatroom_participants.len() && self.chatroom_participants[f].0
            != chatroom.rowid
            invariant
                f <= cp.len(),
                cp == self.chatroom_participants@,
                spec_members_idx(cp, chatroom.rowid, 0) == spec_members_idx(
                    cp,
                    chatroom.rowid,
                    f as int,
                ),
            decreases cp.len() - f,
        {
            f += 1;
        }
        if f < self.chatroom_participants.len() {
            proof {
                assert(spec_members_idx(cp, chatroom.rowid, 0) == f as int);
            }
            let joined = self.filename_from_participants(&self.chatroom_participants[f].1);
            sanitize_filename(joined.as_str())
        } else {
            proof {
                assert(spec_members_idx(cp, chatroom.rowid, 0) == cp.len() as int);
            }
            sanitize_filename(chatroom.chat_identifier.as_str())
        }
    }

    /// The readable local time a message was sent, rendered with the
    /// configuration's recorded UTC offset.
    pub fn get_time(&self, message: &crate::message::Message) -> (r: String)
        requires
            0 <= message.date,
            -86_400 <= self.offset <= 86_400,
        ensures
            r@ == crate::dates::formatted_instant(
                crate::dates::spec_local_seconds(message.date, self.offset) as i64,
            ),
    {
        crate::dates::format_message_date(message.date, self.offset)
    }
}

/// Whether a handle's display contains one of the filter parts.
pub open spec fn spec_handle_selected(
    participants: Seq<(i32, String)>,
    parts: Seq<Seq<char>>,
    h: i32,
) -> bool {
    exists|k: int, j: int|
        0 <= k < participants.len() && 0 <= j < parts.len() && (#[trigger] participants[k]).0 == h
            && crate::strutil::spec_contains_sub(participants[k].1@, #[trigger] parts[j])
}

/// The set of handles the filter parts select.
pub open spec fn spec_selected_handles(
    participants: Seq<(i32, String)>,
    parts: Seq<Seq<char>>,
) -> Set<i32> {
    Set::new(|h: i32| spec_handle_selected(participants, parts, h))
}

/// Whether a chat has a member among the selected handles.
pub open spec fn spec_chat_selected(
    chatroom_participants: Seq<(i32, Vec<i32>)>,
    included: Set<i32>,
    c: i32,
) -> bool {
    exists|k: int, j: int|
        0 <= k < chatroom_participants.len() && (#[trigger] chatroom_participants[k]).0 == c && 0
            <= j < chatroom_participants[k].1@.len() && included.contains(
            #[trigger] chatroom_participants[k].1@[j],
        )
}

impl Config {
    /// Convert the comma separated participant filter into selected chat
    /// and handle IDs: a handle is selected when its display contains one
    /// of the listed names, a chat when one of its members is selected,
    /// and both selections land in the query context.
    pub fn resolve_filtered_handles(&mut self)
        ensures
            old(self).options.conversation_filter is None ==> final(self).options.query_context
                == old(self).options.query_context,
            ({
                match old(self).options.conversation_filter {
                    Option::Some(filter) => {
                        let parts = crate::strutil::spec_split_commas(filter@);
                        let qc = final(self).options.query_context;
                        &&& (qc.selected_handle_ids matches Some(s) ==> forall|h: i32|
                            s@.contains(h) <==> spec_handle_selected(
                                old(self).participants@,
                                parts,
                                h,
                            ))
                        &&& (qc.selected_handle_ids is None ==> forall|h: i32|
                            !spec_handle_selected(old(self).participants@, parts, h))
                        &&& (qc.selected_chat_ids matches Some(s) ==> forall|ch: i32|
                            s@.contains(ch) <==> spec_chat_selected(
                                old(self).chatroom_participants@,
                                spec_selected_handles(old(self).participants@, parts),
                                ch,
                            ))
                        &&& (qc.selected_chat_ids is None ==> forall|ch: i32|
                            !spec_chat_selected(
                                old(self).chatroom_participants@,
                                spec_selected_handles(old(self).participants@, parts),
                                ch,
                            ))
                        &&& qc.limit == old(self).options.query_context.limit
                    },
                    Option::None => true,
                }
            }),
            final(self).participants == old(self).participants,
            final(self).chatrooms == old(self).chatrooms,
            final(self).real_chatrooms == old(self).real_chatrooms,
            final(self).chatroom_participants == old(self).chatroom_participants,
            final(self).real_participants == old(self).real_participants,
            final(self).offset == old(self).offset,
    {
        let filter = match &self.options.conversation_filter {
            Some(f) => f.clone(),
            None => {
                return ;
            },
        };
        let parts = crate::strutil::split_commas(filter.as_str());
        let ghost pview = crate::strutil::spec_split_commas(filter@);

        // First: scan the list of participants for included handle IDs.
        let mut included_handles: std::collections::BTreeSet<i32> =
            std::collections::BTreeSet::new();
        let mut k: usize = 0;
        while k < self.participants.len()
            invariant
                k <= self.participants@.len(),
                pview == crate::handle::strs_view(parts@),
                forall|h: i32|
                    included_handles@.contains(h) <==> exists|k0: int, j: int|
                        0 <= k0 < k && 0 <= j < parts@.len() && (
                        #[trigger] self.participants@[k0]).0 == h
                            && crate::strutil::spec_contains_sub(
                            self.participants@[k0].1@,
                            #[trigger] parts@[j]@,
                        ),
            decreases self.participants@.len() - k,
        {
            let mut matched = false;
            let mut j: usize = 0;
            while j < parts.len()
                invariant
                    j <= parts@.len(),
                    k < self.participants@.len(),
                    matched ==> exists|j0: int|
                        0 <= j0 < parts@.len() && crate::strutil::spec_contains_sub(
                            self.participants@[k as int].1@,
                            #[trigger] parts@[j0]@,
                        ),
                    !matched ==> forall|j0: int|
                        0 <= j0 < j ==> !crate::strutil::spec_contains_sub(
                            self.participants@[k as int].1@,
                            #[trigger] parts@[j0]@,
                        ),
                decreases parts@.len() - j,
            {
                if crate::strutil::contains_sub(
                    self.participants[k].1.as_str(),
                    parts[j].as_str(),
                ) {
                    matched = true;
                }
                j += 1;
            }
            let ghost pre = included_handles@;
            if matched {
                included_handles.insert(self.participants[k].0);
            }
            proof {
                assert forall|h: i32| included_handles@.contains(h) implies exists|k0: int, j: int|
                    0 <= k0 < k + 1 && 0 <= j < parts@.len() && (
                #[trigger] self.participants@[k0]).0 == h && crate::strutil::spec_contains_sub(
                    self.participants@[k0].1@,
                    #[trigger] parts@[j]@,
                ) by {
                    if pre.contains(h) {
                    } else {
                        assert(h == self.participants@[k as int].0);
                    }
                }
                assert forall|h: i32|
                    (exists|k0: int, j: int|
                        0 <= k0 < k + 1 && 0 <= j < parts@.len() && (
                        #[trigger] self.participants@[k0]).0 == h
                            && crate::strutil::spec_contains_sub(
                            self.participants@[k0].1@,
                            #[trigger] parts@[j]@,
                        )) implies included_handles@.contains(h) by {
                    let (k0, j) = choose|k0: int, j: int|
                        0 <= k0 < k + 1 && 0 <= j < parts@.len() && (
                        #[trigger] self.participants@[k0]).0 == h
                            && crate::strutil::spec_contains_sub(
                            self.participants@[k0].1@,
                            #[trigger] parts@[j]@,
                        );
                    if k0 < k {
                        assert(pre.contains(h));
                    }
                }
            }
            k += 1;
        }

        let ghost inc = included_handles@;

        // Second: scan the chatrooms for IDs that contain a selected
        // participant.
        let mut included_chatrooms: std::collections::BTreeSet<i32> =
            std::collections::BTreeSet::new();
        let mut c: usize = 0;
        while c < self.chatroom_participants.len()
            invariant
                c <= self.chatroom_participants@.len(),
                inc == included_handles@,
                forall|ch: i32|
                    included_chatrooms@.contains(ch) <==> exists|k0: int, j: int|
                        0 <= k0 < c && (#[trigger] self.chatroom_participants@[k0]).0 == ch && 0
                            <= j < self.chatroom_participants@[k0].1@.len() && inc.contains(
                            #[trigger] self.chatroom_participants@[k0].1@[j],
                        ),
            decreases self.chatroom_participants@.len() - c,
        {
            let members = &self.chatroom_participants[c].1;
            let mut any = false;
            let mut j: usize = 0;
            while j < members.len()
                invariant
                    j <= members@.len(),
                    c < self.chatroom_participants@.len(),
                    inc == included_handles@,
                    members@ == self.chatroom_participants@[c as int].1@,
                    any <==> exists|j0: int|
                        0 <= j0 < j && inc.contains(#[trigger] members@[j0]),
                decreases members@.len() - j,
            {
                let member = members[j];
                let hit = included_handles.contains(&member);
                proof {
                    vstd::std_specs::btree::axiom_set_contains_deref_key::<i32>(inc, &member);
                }
                if hit {
                    any = true;
                }
                j += 1;
            }
            let ghost pre = included_chatrooms@;
            if any {
                included_chatrooms.insert(self.chatroom_participants[c].0);
            }
            proof {
                assert forall|ch: i32|
                    included_chatrooms@.contains(ch) implies exists|k0: int, j: int|
                    0 <= k0 < c + 1 && (#[trigger] self.chatroom_participants@[k0]).0 == ch && 0
                        <= j < self.chatroom_participants@[k0].1@.len() && inc.contains(
                    #[trigger] self.chatroom_participants@[k0].1@[j],
                ) by {
                    if pre.contains(ch) {
                    } else {
                        assert(ch == self.chatroom_participants@[c as int].0);
                        let j0 = choose|j0: int|
                            0 <= j0 < members@.len() && inc.contains(#[trigger] members@[j0]);
                        assert(0 <= c < c + 1 && self.chatroom_participants@[c as int].0 == ch && 0
                            <= j0 < self.chatroom_participants@[c as int].1@.len()
                            && inc.contains(self.chatroom_participants@[c as int].1@[j0]));
                    }
                }
                assert forall|ch: i32|
                    (exists|k0: int, j: int|
                        0 <= k0 < c + 1 && (#[trigger] self.chatroom_participants@[k0]).0 == ch
                            && 0 <= j < self.chatroom_participants@[k0].1@.len() && inc.contains(
                            #[trigger] self.chatroom_participants@[k0].1@[j],
                        )) implies included_chatrooms@.contains(ch) by {
                    let (k0, j) = choose|k0: int, j: int|
                        0 <= k0 < c + 1 && (#[trigger] self.chatroom_participants@[k0]).0 == ch
                            && 0 <= j < self.chatroom_participants@[k0].1@.len() && inc.contains(
                            #[trigger] self.chatroom_participants@[k0].1@[j],
                        );
                    if k0 < c {
                        assert(pre.contains(ch));
                    } else {
                        assert(inc.contains(members@[j]));
                        assert(any);
                    }
                }
            }
            c += 1;
        }
        let ghost chats = included_chatrooms@;

        proof {
            assert forall|h: i32|
                inc.contains(h) <==> spec_handle_selected(
                    old(self).participants@,
                    pview,
                    h,
                ) by {
                if inc.contains(h) {
                    let (k0, j) = choose|k0: int, j: int|
                        0 <= k0 < self.participants@.len() && 0 <= j < parts@.len() && (
                        #[trigger] self.participants@[k0]).0 == h
                            && crate::strutil::spec_contains_sub(
                            self.participants@[k0].1@,
                            #[trigger] parts@[j]@,
                        );
                    assert(pview[j] == parts@[j]@);
                    assert(spec_handle_selected(old(self).participants@, pview, h));
                }
                if spec_handle_selected(old(self).participants@, pview, h) {
                    let (k0, j) = choose|k0: int, j: int|
                        0 <= k0 < old(self).participants@.len() && 0 <= j < pview.len() && (
                        #[trigger] old(self).participants@[k0]).0 == h
                            && crate::strutil::spec_contains_sub(
                            old(self).participants@[k0].1@,
                            #[trigger] pview[j],
                        );
                    assert(parts@[j]@ == pview[j]);
                    assert(exists|k1: int, j1: int|
                        0 <= k1 < self.participants@.len() && 0 <= j1 < parts@.len() && (
                        #[trigger] self.participants@[k1]).0 == h
                            && crate::strutil::spec_contains_sub(
                            self.participants@[k1].1@,
                            #[trigger] parts@[j1]@,
                        ));
                }
            }
        }
        proof {
            let hs = spec_selected_handles(old(self).participants@, pview);
            assert(inc =~= hs);
            assert forall|ch: i32|
                chats.contains(ch) <==> spec_chat_selected(
                    old(self).chatroom_participants@,
                    hs,
                    ch,
                ) by {
                if chats.contains(ch) {
                    let (k0, j) = choose|k0: int, j: int|
                        0 <= k0 < self.chatroom_participants@.len() && (
                        #[trigger] self.chatroom_participants@[k0]).0 == ch && 0 <= j
                            < self.chatroom_participants@[k0].1@.len() && inc.contains(
                            #[trigger] self.chatroom_participants@[k0].1@[j],
                        );
                    assert(spec_chat_selected(old(self).chatroom_participants@, hs, ch));
                }
                if spec_chat_selected(old(self).chatroom_participants@, hs, ch) {
                    let (k0, j) = choose|k0: int, j: int|
                        0 <= k0 < old(self).chatroom_participants@.len() && (
                        #[trigger] old(self).chatroom_participants@[k0]).0 == ch && 0 <= j
                            < old(self).chatroom_participants@[k0].1@.len() && hs.contains(
                            #[trigger] old(self).chatroom_participants@[k0].1@[j],
                        );
                    assert(exists|k1: int, j1: int|
                        0 <= k1 < self.chatroom_participants@.len() && (
                        #[trigger] self.chatroom_participants@[k1]).0 == ch && 0 <= j1
                            < self.chatroom_participants@[k1].1@.len() && inc.contains(
                            #[trigger] self.chatroom_participants@[k1].1@[j1],
                        ));
                }
            }
        }
        self.options.query_context.set_selected_handle_ids(included_handles);
        self.options.query_context.set_selected_chat_ids(included_chatrooms);
        proof {
            let hs = spec_selected_handles(old(self).participants@, pview);
            if self.options.query_context.selected_handle_ids is None {
                assert(inc.is_empty());
                assert forall|h: i32|
                    !spec_handle_selected(old(self).participants@, pview, h) by {
                    assert(!inc.contains(h));
                }
            }
            if self.options.query_context.selected_chat_ids is None {
                assert(chats.is_empty());
                assert forall|ch: i32|
                    !spec_chat_selected(old(self).chatroom_participants@, hs, ch) by {
                    assert(!chats.contains(ch));
                }
            }
        }
    }
}

} // verus!
