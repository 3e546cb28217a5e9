use imessage_undeleter::config::{
    sanitize_filename, Attachment, AttachmentManagerMode, Chat, Config, Options, Platform,
};
use imessage_undeleter::dates::format_instant;
use imessage_undeleter::message::{
    BubbleComponent, EditStatus, EditedEvent, EditedMessage, EditedMessagePart, Message,
};
use imessage_undeleter::query_context::QueryContext;

fn options() -> Options {
    Options {
        export_path: "/export".to_string(),
        attachment_root: None,
        db_path: "/db/chat.db".to_string(),
        platform: Platform::MacOs,
        query_context: QueryContext::default(),
        custom_name: None,
        use_caller_id: false,
        attachment_manager_mode: AttachmentManagerMode::Disabled,
        conversation_filter: None,
    }
}

fn config() -> Config {
    Config {
        chatrooms: vec![
            (
                10,
                Chat {
                    rowid: 10,
                    chat_identifier: "chat10".to_string(),
                    display_name: Some("Friends".to_string()),
                },
            ),
            (
                11,
                Chat {
                    rowid: 11,
                    chat_identifier: "chat11".to_string(),
                    display_name: None,
                },
            ),
        ],
        real_chatrooms: vec![(10, 0), (11, 1)],
        chatroom_participants: vec![(10, vec![1, 2]), (11, vec![2, 3])],
        participants: vec![
            (1, "+15550001 alice@x".to_string()),
            (2, "+15550001 alice@x".to_string()),
            (3, "bob@y".to_string()),
        ],
        real_participants: vec![(1, 0), (2, 0), (3, 1)],
        options: options(),
        offset: 0,
    }
}

fn blank_message() -> Message {
    Message {
        rowid: 1,
        guid: "g1".to_string(),
        text: None,
        service: Some("iMessage".to_string()),
        handle_id: Some(3),
        destination_caller_id: None,
        subject: None,
        date: 0,
        date_read: 0,
        date_delivered: 0,
        is_from_me: false,
        is_read: false,
        item_type: 0,
        other_handle: None,
        share_status: false,
        share_direction: None,
        group_title: None,
        group_action_type: 0,
        associated_message_guid: None,
        associated_message_type: Some(0),
        balloon_bundle_id: None,
        expressive_send_style_id: None,
        thread_originator_guid: None,
        thread_originator_part: None,
        date_edited: 0,
        associated_message_emoji: None,
        chat_id: Some(10),
        num_attachments: 0,
        deleted_from: None,
        num_replies: 0,
        components: None,
        edited_parts: None,
    }
}

#[test]
fn who_resolves_handles_and_self() {
    let cfg = config();
    assert_eq!(cfg.who(Some(3), false, &None), "bob@y");
    assert_eq!(cfg.who(Some(1), false, &None), "+15550001 alice@x");
    assert_eq!(cfg.who(Some(99), false, &None), "Unknown");
    assert_eq!(cfg.who(None, false, &None), "Unknown");
    assert_eq!(cfg.who(Some(3), true, &None), "Me");

    let mut named = config();
    named.options.custom_name = Some("Sam".to_string());
    assert_eq!(named.who(Some(3), true, &None), "Sam");

    let mut caller = config();
    caller.options.use_caller_id = true;
    assert_eq!(
        caller.who(None, true, &Some("+15550009".to_string())),
        "+15550009"
    );
}

#[test]
fn conversation_resolves_known_chats() {
    let cfg = config();
    let (chat, dense) = cfg.conversation(Some(10), None).unwrap();
    assert_eq!(chat.rowid, 10);
    assert_eq!(dense, 0);

    // `deleted_from` is used when `chat_id` is gone.
    let (chat, dense) = cfg.conversation(None, Some(11)).unwrap();
    assert_eq!(chat.rowid, 11);
    assert_eq!(dense, 1);

    assert!(cfg.conversation(Some(99), None).is_none());
    assert!(cfg.conversation(None, None).is_none());

    assert_eq!(cfg.conversation_attachment_path(Some(11)), "1");
    assert_eq!(cfg.conversation_attachment_path(Some(99)), "orphaned");
    assert_eq!(cfg.conversation_attachment_path(None), "orphaned");
    assert_eq!(cfg.attachment_path(), "/export/attachments");
}

#[test]
fn filenames_are_sanitized_and_truncated() {
    let cfg = config();
    let named = &cfg.chatrooms[0].1;
    assert_eq!(cfg.filename(named), "Friends - 10");

    let unnamed = &cfg.chatrooms[1].1;
    assert_eq!(cfg.filename(unnamed), "+15550001 alice@x, bob@y");

    let orphan = Chat {
        rowid: 99,
        chat_identifier: "iMessage;+;chat99".to_string(),
        display_name: None,
    };
    assert_eq!(cfg.filename(&orphan), "iMessage;+;chat99");

    assert_eq!(sanitize_filename("a/b:c*d?e"), "a_b_c_d_e");
    assert_eq!(sanitize_filename("plain name"), "plain name");
}

#[test]
fn relative_paths_strip_the_export_root() {
    let cfg = config();
    assert_eq!(cfg.relative_path("/export/attachments/3"), "attachments/3");
    assert_eq!(cfg.relative_path("/elsewhere/3"), "/elsewhere/3");
    assert_eq!(cfg.relative_path("/export"), "/export");

    let mut copied = Attachment {
        rowid: 1,
        filename: Some("~/Library/a.heic".to_string()),
        uti: None,
        mime_type: Some("image/heic".to_string()),
        transfer_name: Some("a.heic".to_string()),
        total_bytes: 100,
        is_sticker: false,
        hide_attachment: 0,
        emoji_description: None,
        copied_path: Some("/export/attachments/0".to_string()),
        resolved_path: Some("/Users/me/Library/a.heic".to_string()),
    };
    assert_eq!(cfg.message_attachment_path(&copied), "attachments/0");
    copied.copied_path = None;
    assert_eq!(cfg.message_attachment_path(&copied), "/Users/me/Library/a.heic");
    copied.resolved_path = None;
    assert_eq!(cfg.message_attachment_path(&copied), "~/Library/a.heic");
}

#[test]
fn filter_selects_matching_handles_and_their_chats() {
    let mut cfg = config();
    cfg.options.conversation_filter = Some("bob".to_string());
    cfg.resolve_filtered_handles();
    let qc = &cfg.options.query_context;
    let handles = qc.selected_handle_ids.as_ref().unwrap();
    assert_eq!(handles.iter().copied().collect::<Vec<i32>>(), vec![3]);
    let chats = qc.selected_chat_ids.as_ref().unwrap();
    assert_eq!(chats.iter().copied().collect::<Vec<i32>>(), vec![11]);

    let mut none = config();
    none.options.conversation_filter = Some("nobody".to_string());
    none.resolve_filtered_handles();
    assert!(none.options.query_context.selected_handle_ids.is_none());
}

#[test]
fn fully_unsent_needs_every_bubble_retracted() {
    let mut msg = blank_message();
    assert!(!msg.is_fully_unsent());
    msg.components = Some(vec![BubbleComponent::Retracted, BubbleComponent::Retracted]);
    assert!(msg.is_fully_unsent());
    msg.components = Some(vec![BubbleComponent::Text(vec![]), BubbleComponent::Retracted]);
    assert!(!msg.is_fully_unsent());
    msg.components = Some(vec![]);
    assert!(!msg.is_fully_unsent());
}

#[test]
fn edit_history_survives_repeated_hydration() {
    let edited = EditedMessage {
        parts: vec![
            EditedMessagePart { status: EditStatus::Original, edit_history: vec![] },
            EditedMessagePart {
                status: EditStatus::Edited,
                edit_history: vec![
                    EditedEvent { date: 1, text: Some("a".to_string()) },
                    EditedEvent { date: 2, text: Some("b".to_string()) },
                ],
            },
            EditedMessagePart {
                status: EditStatus::Unsent,
                edit_history: vec![EditedEvent { date: 3, text: None }],
            },
        ],
    };
    let components = vec![
        BubbleComponent::Text(vec![]),
        BubbleComponent::Text(vec![]),
        BubbleComponent::Retracted,
    ];

    let mut msg = blank_message();
    msg.generate_text(Some("ab".to_string()), components.clone(), Some(edited.clone()));
    let once = msg.clone();
    msg.generate_text(Some("ab".to_string()), components, Some(edited));
    assert_eq!(msg.components, once.components);
    assert_eq!(msg.edited_parts, once.edited_parts);
    assert_eq!(msg, once);
    // One part is still Original and another Edited, so the message is
    // not fully unsent.
    assert!(!msg.is_fully_unsent());
    assert!(!msg.is_part_edited(0));
    assert!(msg.is_part_edited(1));
    assert!(msg.is_part_edited(2));
}

#[test]
fn instants_render_the_same_text_everywhere() {
    assert_eq!(format_instant(0), "Jan 01, 1970 12:00:00 AM");
    assert_eq!(format_instant(0), format_instant(0));
}
