//! The message data model: one row of the `message` table together with its
//! decoded body components and edit history.

use vstd::prelude::*;

verus! {

/// One styled span of a text bubble, as a character range of the message
/// text.
#[derive(Debug, Clone, PartialEq, Eq)]
pub struct TextAttributes {
    /// The start index of the affected range.
    pub start: usize,
    /// The end index of the affected range, exclusive.
    pub end: usize,
}

/// Metadata that an attachment placeholder carries.
#[derive(Debug, Clone, PartialEq, Eq, Default)]
pub struct AttachmentMeta {
    pub guid: Option<String>,
    pub transcription: Option<String>,
}

/// One bubble of a message body, in document order.
#[derive(Debug, Clone, PartialEq, Eq)]
pub enum BubbleComponent {
    /// A text bubble with its styled spans.
    Text(Vec<TextAttributes>),
    /// An attachment placeholder.
    Attachment(AttachmentMeta),
    /// An app balloon.
    App,
    /// A part the sender has unsent; it has no content.
    Retracted,
}

/// The state of one part in a message's edit history.
#[derive(Debug, Clone, Copy, PartialEq, Eq, Structural)]
pub enum EditStatus {
    Original,
    Edited,
    Unsent,
}

/// One event of a part's edit timeline.
#[derive(Debug, Clone, PartialEq, Eq)]
pub struct EditedEvent {
    pub date: i64,
    /// The text after this edit; a retraction has none.
    pub text: Option<String>,
}

/// One part of an edited message.
#[derive(Debug, Clone, PartialEq, Eq)]
pub struct EditedMessagePart {
    pub status: EditStatus,
    pub edit_history: Vec<EditedEvent>,
}

/// The decoded edit history of a message, one entry per part.
#[derive(Debug, Clone, PartialEq, Eq)]
pub struct EditedMessage {
    pub parts: Vec<EditedMessagePart>,
}

/// Represents a single row in the `message` table, together with the
/// derived body and edit history that the decoder fills in.
#[derive(Debug, Clone, PartialEq, Eq)]
pub struct Message {
    pub rowid: i32,
    pub guid: String,
    /// The derived text, hydrated from the decoded body.
    pub text: Option<String>,
    pub service: Option<String>,
    pub handle_id: Option<i32>,
    pub destination_caller_id: Option<String>,
    pub subject: Option<String>,
    /// Stored as nanoseconds with an epoch of 2001-01-01.
    pub date: i64,
    pub date_read: i64,
    pub date_delivered: i64,
    pub is_from_me: bool,
    pub is_read: bool,
    pub item_type: i32,
    pub other_handle: Option<i32>,
    pub share_status: bool,
    pub share_direction: Option<bool>,
    pub group_title: Option<String>,
    pub group_action_type: i32,
    pub associated_message_guid: Option<String>,
    pub associated_message_type: Option<i32>,
    pub balloon_bundle_id: Option<String>,
    pub expressive_send_style_id: Option<String>,
    pub thread_originator_guid: Option<String>,
    pub thread_originator_part: Option<String>,
    pub date_edited: i64,
    pub associated_message_emoji: Option<String>,
    pub chat_id: Option<i32>,
    pub num_attachments: i32,
    /// The chat a deleted message was last seen in, when `chat_id` is gone.
    pub deleted_from: Option<i32>,
    pub num_replies: i32,
    /// The decoded body, one bubble per part; `None` until hydrated.
    pub components: Option<Vec<BubbleComponent>>,
    /// The decoded edit history; `None` until hydrated or when the message
    /// was never edited.
    pub edited_parts: Option<EditedMessage>,
}

/// A message is fully unsent when its decoded body has at least one bubble
/// and every bubble is retracted. A body with no bubbles does not count:
/// an undecoded or empty message carries no retraction signal, and
/// treating it as unsent would promote it spuriously.
pub open spec fn spec_is_fully_unsent(m: Message) -> bool {
    match m.components {
        Option::Some(components) => components@.len() > 0 && forall|i: int|
            0 <= i < components@.len() ==> components@[i] is Retracted,
        Option::None => false,
    }
}

/// Whether part `idx` of the edit history was edited or unsent.
pub open spec fn spec_is_part_edited(m: Message, idx: int) -> bool {
    match m.edited_parts {
        Option::Some(edited) => 0 <= idx < edited.parts@.len() && !(edited.parts@[idx].status
            is Original),
        Option::None => false,
    }
}

impl Message {
    /// Every bubble of the decoded body is retracted, and there is at least
    /// one.
    pub fn is_fully_unsent(&self) -> (r: bool)
        ensures
            r == spec_is_fully_unsent(*self),
    {
        match &self.components {
            Some(components) => {
                if components.len() == 0 {
                    return false;
                }
                let mut i: usize = 0;
                while i < components.len()
                    invariant
                        i <= components@.len(),
                        self.components == Some(*components),
                        forall|k: int| 0 <= k < i ==> components@[k] is Retracted,
                    decreases components.len() - i,
                {
                    if !(matches!(components[i], BubbleComponent::Retracted)) {
                        proof {
                            assert(!(components@[i as int] is Retracted));
                        }
                        return false;
                    }
                    i += 1;
                }
                true
            },
            None => false,
        }
    }

    /// The row advertises at least one attachment.
    pub fn has_attachments(&self) -> (r: bool)
        ensures
            r == (self.num_attachments != 0),
    {
        self.num_attachments != 0
    }

    /// Whether part `idx` of this message was edited or unsent.
    pub fn is_part_edited(&self, idx: usize) -> (r: bool)
        ensures
            r == spec_is_part_edited(*self, idx as int),
    {
        match &self.edited_parts {
            Some(edited) => {
                if idx < edited.parts.len() {
                    !(matches!(edited.parts[idx].status, EditStatus::Original))
                } else {
                    false
                }
            },
            None => false,
        }
    }

    /// Whether this message was sent by the database's owner.
    pub fn is_from_me(&self) -> (r: bool)
        ensures
            r == self.is_from_me,
    {
        self.is_from_me
    }

    /// Hydrates the derived fields from a decoded body: the text, the
    /// bubble components and the edit history. Feeding the same decoded
    /// values twice leaves the message exactly as after the first call.
    pub fn generate_text(
        &mut self,
        text: Option<String>,
        components: Vec<BubbleComponent>,
        edited_parts: Option<EditedMessage>,
    )
        ensures
            *final(self) == (Message {
                text,
                components: Some(components),
                edited_parts,
                ..*old(self)
            }),
    {
        self.text = text;
        self.components = Some(components);
        self.edited_parts = edited_parts;
    }
}

/// Hydration is idempotent: calling `generate_text` twice with the same
/// decoded values leaves the message exactly as one call does, so in
/// particular the `components` and `edited_parts` are equal after either.
pub proof fn lemma_generate_text_idempotent(
    m0: Message,
    text: Option<String>,
    components: Vec<BubbleComponent>,
    edited_parts: Option<EditedMessage>,
)
    ensures
        ({
            let once = Message { text, components: Some(components), edited_parts, ..m0 };
            let twice = Message { text, components: Some(components), edited_parts, ..once };
            &&& twice == once
            &&& twice.components == once.components
            &&& twice.edited_parts == once.edited_parts
        }),
{
}

} // verus!
