# minvoice

The verified core of MinVoice, a small LiveKit voice-chat desktop client that
signs its room access tokens locally.

- `src/` — the library, verified with Verus:
  - `token.rs`: HS256 JWT issuing (`mint_at`, `mint`, `mint_token`), validity
    parsing (`parse_ttl`) and the signing helpers `b64` / `sign_hs256`;
  - `settings.rs`: the settings form, its defaults, credentials read from an
    env file, server-address normalisation and the checks before saving;
  - `volume.rs`: per-server, per-participant playback volumes;
  - `voice.rs`: the decisions of a voice session (snapshot order, mute and
    deafen requests, room events, device choice, join preparation);
  - `text.rs`: character-level helpers (trimming, splitting, number parsing
    and formatting);
  - `codec.rs`: the trusted calls into `base64`, `hmac`/`sha2`,
    `serde_json`, the clock and a randomly seeded hasher.
- `app/` — the Tauri back end around the library: commands, files on disk and
  the LiveKit session.
- `tests/` — tests of the library.
