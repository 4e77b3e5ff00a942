# telegram_backup

The verified core of a photo and video backup service that stores media in
Telegram, written in Verus.

- `src/` is the library.  Its functions are proved against their contracts,
  except the few marked `#[verifier::external_body]` that call `mp4parse` and
  `serde_json`, whose contracts are stated from those crates' sources:
  - `mp4_boxes`: the MP4 box walker that finds a video track's display size;
  - `mp4_metadata`: track summaries read through `mp4parse`, and the test for
    `.mp4` names;
  - `download`: the buffer that keeps the first 2 MiB of a download;
  - `text`, `json`, `bridge`: the bridge file's lines and the upload-queue
    rows made from its JSON items;
  - `preferences`, `backup_queue`, `tracking`, `upload_run`,
    `upload_service`: preferences, the in-memory queue, the uploaded-media
    table's statements, and the upload run as a state machine.
- `tests/` exercises the library on concrete inputs.
- `app/` is the host side: SQLite access, the bridge-file poller, Telegram
  downloads, and serialisable copies of the library's types.
