use minvoice::voice::{
    choose_device, connect_url, connection_label, device_for_join, device_kind, device_views,
    display_name, first_matching_device, join_input, local_participant, order_participants,
    plan_deafen, plan_event, plan_mic, remember_device, remote_participant, snapshot_of,
    ConnectInput, DeafenPlan, DeviceKind, LinkState, MicPlan, MicState, ParticipantView, PeerInfo,
    RememberedDevices, RoomEventKind, TrackInfo,
};

fn person(name: &str, identity: &str) -> ParticipantView {
    ParticipantView {
        identity: identity.into(),
        name: name.into(),
        is_local: false,
        speaking: false,
        mic_muted: true,
    }
}

#[test]
fn names_fall_back_to_identity() {
    assert_eq!(display_name("  Ann ", "a1"), "Ann");
    assert_eq!(display_name(" \t", "a1"), "a1");
    assert_eq!(connection_label(LinkState::Reconnecting), "reconnecting");
    assert_eq!(connection_label(LinkState::Connected), "connected");
    assert_eq!(connection_label(LinkState::Disconnected), "disconnected");
}

#[test]
fn local_first_then_stable_name_order() {
    let local = person("Zed", "me");
    let remotes = vec![
        person("bob", "b1"),
        person("Bob", "b2"),
        person("amy", "a1"),
        person("bob", "b3"),
        person("", "x"),
    ];
    let order = order_participants(local, remotes);
    let ids: Vec<&str> = order.iter().map(|p| p.identity.as_str()).collect();
    assert_eq!(ids, vec!["me", "x", "b2", "a1", "b1", "b3"]);
}

#[test]
fn snapshot_reports_who_has_a_live_microphone() {
    let peer = PeerInfo {
        identity: "p".into(),
        name: "".into(),
        speaking: true,
        tracks: vec![
            TrackInfo { is_audio: false, muted: false },
            TrackInfo { is_audio: true, muted: true },
        ],
    };
    let quiet = remote_participant(&peer);
    assert!(quiet.mic_muted);
    assert_eq!(quiet.name, "p");
    let live = PeerInfo {
        tracks: vec![TrackInfo { is_audio: true, muted: false }],
        ..peer
    };
    assert!(!remote_participant(&live).mic_muted);
    let local = local_participant("me", "", false, false);
    assert!(local.mic_muted && local.is_local);
    let snap = snapshot_of(
        LinkState::Connected,
        "room".into(),
        local,
        vec![remote_participant(&live), quiet],
        false,
        true,
    );
    assert_eq!(snap.identity, "me");
    assert_eq!(snap.connection, "connected");
    assert_eq!(snap.participants.len(), 3);
    assert!(snap.deafened && !snap.mic_enabled);
}

#[test]
fn microphone_and_deafen_requests() {
    assert!(matches!(plan_mic(None, true), MicPlan::Refuse(e) if e == "还没进入房间"));
    let s = MicState { mic_enabled: true, published: true };
    assert!(matches!(plan_mic(Some(s), true), MicPlan::Unchanged));
    assert!(matches!(plan_mic(Some(s), false), MicPlan::Mute));
    let off = MicState { mic_enabled: false, published: true };
    assert!(matches!(plan_mic(Some(off), true), MicPlan::Unmute));
    let unpublished = MicState { mic_enabled: true, published: false };
    assert!(
        matches!(plan_mic(Some(unpublished), false), MicPlan::Refuse(e) if e == "麦克风没有发布成功,无法切换")
    );
    assert!(matches!(plan_deafen(None, true), DeafenPlan::Refuse(_)));
    assert!(matches!(plan_deafen(Some(true), true), DeafenPlan::Unchanged));
    assert!(matches!(plan_deafen(Some(false), true), DeafenPlan::Apply { subscribe: false }));
    assert!(matches!(plan_deafen(Some(true), false), DeafenPlan::Apply { subscribe: true }));
}

#[test]
fn room_events() {
    let plan = plan_event(RoomEventKind::TrackPublished, Some(true));
    assert!(plan.enforce_deafen && plan.notice.is_none());
    assert!(!plan_event(RoomEventKind::TrackSubscribed, Some(false)).enforce_deafen);
    assert!(!plan_event(RoomEventKind::Reconnecting, Some(true)).enforce_deafen);
    assert_eq!(
        plan_event(RoomEventKind::Reconnecting, None).notice.unwrap(),
        "网络抖动,正在重连…"
    );
    assert_eq!(plan_event(RoomEventKind::Reconnected, None).notice.unwrap(), "已重新连接");
    assert_eq!(
        plan_event(RoomEventKind::Disconnected { reason: "ClientInitiated".into() }, None)
            .notice
            .unwrap(),
        "连接已断开(ClientInitiated)"
    );
    assert_eq!(
        plan_event(RoomEventKind::TrackSubscriptionFailed { error: "E".into() }, None)
            .notice
            .unwrap(),
        "订阅对端音频失败: E"
    );
    let chat = plan_event(
        RoomEventKind::ChatMessage {
            id: "1".into(),
            sender: Some((" ".into(), "bob".into())),
            text: "hi".into(),
            timestamp: 7,
        },
        None,
    )
    .chat
    .unwrap();
    assert_eq!(chat.from, "bob");
    assert_eq!(chat.identity.as_deref(), Some("bob"));
    assert_eq!(chat.name.as_deref(), Some(" "));
    assert_eq!(chat.text, "hi");
    assert_eq!(chat.id, "1");
    assert_eq!(chat.timestamp, 7);
    let system = plan_event(
        RoomEventKind::ChatMessage { id: "2".into(), sender: None, text: "x".into(), timestamp: 0 },
        None,
    )
    .chat
    .unwrap();
    assert_eq!(system.from, "(系统)");
    assert!(system.identity.is_none() && system.name.is_none());
    assert!(plan_event(RoomEventKind::Other, Some(true)).chat.is_none());
}

#[test]
fn devices() {
    let views = device_views(vec![("a".into(), "A".into()), ("b".into(), "B".into())]);
    assert!(views[0].is_default && !views[1].is_default);
    assert_eq!(views[1].name, "B");
    let ids: Vec<String> = vec!["a".into(), "b".into()];
    assert_eq!(first_matching_device(&ids, "b"), Some(1));
    assert_eq!(first_matching_device(&ids, ""), Some(0));
    assert_eq!(first_matching_device(&ids, "c"), None);
    assert_eq!(choose_device(DeviceKind::Speaker, &ids, "c").unwrap_err(), "找不到这个扬声器");
    assert_eq!(choose_device(DeviceKind::Microphone, &ids, "c").unwrap_err(), "找不到这个麦克风");
    assert_eq!(device_kind("mic").unwrap(), DeviceKind::Microphone);
    assert_eq!(device_kind("speaker").unwrap(), DeviceKind::Speaker);
    assert_eq!(device_kind("cam").unwrap_err(), "未知设备类型 cam");
}

#[test]
fn joining_signs_a_token() {
    assert_eq!(connect_url("  ").unwrap_err(), "请填服务器地址");
    assert_eq!(connect_url("h:1").unwrap(), "wss://h:1");
    let input = ConnectInput {
        url: "h:1".into(),
        api_key: "k".into(),
        room: "r".into(),
        identity: "me".into(),
        display_name: "Me".into(),
        ttl: "".into(),
        echo_cancellation: true,
        noise_suppression: false,
        auto_gain_control: true,
        mic_device_id: "m".into(),
        speaker_device_id: "".into(),
    };
    let join = join_input(input.clone(), "wss://h:1".into(), "secret".into()).unwrap();
    assert_eq!(join.url, "wss://h:1");
    assert_eq!(join.identity, "me");
    assert_eq!(join.mic_device_id, "m");
    assert_eq!(join.token.split('.').count(), 3);
    assert_eq!(
        join_input(input, "wss://h:1".into(), "".into()).unwrap_err(),
        "API Secret 不能为空"
    );
}

#[test]
fn chat_line_keeps_the_senders_identity_beside_its_name() {
    let chat = plan_event(
        RoomEventKind::ChatMessage {
            id: "m9".into(),
            sender: Some(("  Ann ".into(), "ann-7".into())),
            text: "hello".into(),
            timestamp: 1_700_000_000_123,
        },
        Some(false),
    )
    .chat
    .unwrap();
    assert_eq!(chat.identity.as_deref(), Some("ann-7"));
    assert_eq!(chat.name.as_deref(), Some("  Ann "));
    assert_eq!(chat.from, "Ann");
    assert_eq!(chat.timestamp, 1_700_000_000_123);
}

#[test]
fn device_choice_outside_a_room_is_used_by_the_next_join() {
    let mut remembered = RememberedDevices { mic: None, speaker: None };
    remember_device(&mut remembered, "mic", "usb-mic".into());
    assert_eq!(remembered.mic.as_deref(), Some("usb-mic"));
    assert!(remembered.speaker.is_none());
    remember_device(&mut remembered, "speaker", "hdmi".into());
    assert_eq!(remembered.speaker.as_deref(), Some("hdmi"));
    assert_eq!(remembered.mic.as_deref(), Some("usb-mic"));
    remember_device(&mut remembered, "camera", "cam0".into());
    assert_eq!(remembered.mic.as_deref(), Some("usb-mic"));
    assert_eq!(remembered.speaker.as_deref(), Some("hdmi"));
    remember_device(&mut remembered, "mic", "other".into());
    assert_eq!(remembered.mic.as_deref(), Some("other"));

    assert_eq!(device_for_join("form-mic".into(), remembered.mic.take()), "other");
    assert_eq!(device_for_join("form-mic".into(), remembered.mic.take()), "form-mic");
    assert_eq!(device_for_join("".into(), None), "");
}
