use telegram_backup::mp4_boxes::{scan_video_tkhd_dimensions, try_scan_video_tkhd_dimensions};
use telegram_backup::mp4_metadata::{
    batch_entry, is_mp4_file_name, parse_mp4_metadata, BatchMetadataEntry, summarize_tracks, ScaledDuration, TrackInfo, TrackKind,
};

/// A one-frame 176x144 H.263 video in a 3GP container, with no audio.
const ONE_FRAME_3GP: [u8; 1578] = [
    0x00, 0x00, 0x00, 0x1c, 0x66, 0x74, 0x79, 0x70, 0x33, 0x67, 0x70, 0x34, 0x00, 0x00, 0x02, 0x00,
    0x69, 0x73, 0x6f, 0x6d, 0x69, 0x73, 0x6f, 0x32, 0x33, 0x67, 0x70, 0x34, 0x00, 0x00, 0x00, 0x08,
    0x66, 0x72, 0x65, 0x65, 0x00, 0x00, 0x02, 0x9f, 0x6d, 0x64, 0x61, 0x74, 0x00, 0x00, 0x80, 0x02,
    0x08, 0x03, 0x26, 0x20, 0x20, 0x20, 0x21, 0xff, 0xff, 0x31, 0x01, 0x01, 0x01, 0x0f, 0xff, 0xf9,
    0x88, 0x08, 0x08, 0x08, 0x7f, 0xff, 0xcc, 0x40, 0x40, 0x40, 0x43, 0xff, 0xfe, 0x62, 0x02, 0x02,
    0x02, 0x1f, 0xff, 0xf3, 0x10, 0x10, 0x10, 0x10, 0xff, 0xff, 0x98, 0x80, 0x80, 0x80, 0x87, 0xff,
    0xfc, 0xc4, 0x04, 0x04, 0x04, 0x3f, 0xff, 0xe6, 0x20, 0x20, 0x20, 0x21, 0xff, 0xff, 0x31, 0x01,
    0x01, 0x01, 0x0f, 0xff, 0xf9, 0x88, 0x08, 0x08, 0x08, 0x7f, 0xff, 0xcc, 0x40, 0x40, 0x40, 0x43,
    0xff, 0xfe, 0x62, 0x02, 0x02, 0x02, 0x1f, 0xff, 0xf3, 0x10, 0x10, 0x10, 0x10, 0xff, 0xff, 0x98,
    0x80, 0x80, 0x80, 0x87, 0xff, 0xfc, 0xc4, 0x04, 0x04, 0x04, 0x3f, 0xff, 0xe6, 0x20, 0x20, 0x20,
    0x21, 0xff, 0xff, 0x31, 0x01, 0x01, 0x01, 0x0f, 0xff, 0xf9, 0x88, 0x08, 0x08, 0x08, 0x7f, 0xff,
    0xcc, 0x40, 0x40, 0x40, 0x43, 0xff, 0xfe, 0x62, 0x02, 0x02, 0x02, 0x1f, 0xff, 0xf3, 0x10, 0x10,
    0x10, 0x10, 0xff, 0xff, 0x98, 0x80, 0x80, 0x80, 0x87, 0xff, 0xfc, 0xc4, 0x04, 0x04, 0x04, 0x3f,
    0xff, 0xe6, 0x20, 0x20, 0x20, 0x21, 0xff, 0xff, 0x31, 0x01, 0x01, 0x01, 0x0f, 0xff, 0xf9, 0x88,
    0x08, 0x08, 0x08, 0x7f, 0xff, 0xcc, 0x40, 0x40, 0x40, 0x43, 0xff, 0xfe, 0x62, 0x02, 0x02, 0x02,
    0x1f, 0xff, 0xf3, 0x10, 0x10, 0x10, 0x10, 0xff, 0xff, 0x98, 0x80, 0x80, 0x80, 0x87, 0xff, 0xfc,
    0xc4, 0x04, 0x04, 0x04, 0x3f, 0xff, 0xe6, 0x20, 0x20, 0x20, 0x21, 0xff, 0xff, 0x31, 0x01, 0x01,
    0x01, 0x0f, 0xff, 0xf9, 0x88, 0x08, 0x08, 0x08, 0x7f, 0xff, 0xcc, 0x40, 0x40, 0x40, 0x43, 0xff,
    0xfe, 0x62, 0x02, 0x02, 0x02, 0x1f, 0xff, 0xf3, 0x10, 0x10, 0x10, 0x10, 0xff, 0xff, 0x98, 0x80,
    0x80, 0x80, 0x87, 0xff, 0xfc, 0xc4, 0x04, 0x04, 0x04, 0x3f, 0xff, 0xe6, 0x20, 0x20, 0x20, 0x21,
    0xff, 0xff, 0x31, 0x01, 0x01, 0x01, 0x0f, 0xff, 0xf9, 0x88, 0x08, 0x08, 0x08, 0x7f, 0xff, 0xcc,
    0x40, 0x40, 0x40, 0x43, 0xff, 0xfe, 0x62, 0x02, 0x02, 0x02, 0x1f, 0xff, 0xf3, 0x10, 0x10, 0x10,
    0x10, 0xff, 0xff, 0x98, 0x80, 0x80, 0x80, 0x87, 0xff, 0xfc, 0xc4, 0x04, 0x04, 0x04, 0x3f, 0xff,
    0xe6, 0x20, 0x20, 0x20, 0x21, 0xff, 0xff, 0x31, 0x01, 0x01, 0x01, 0x0f, 0xff, 0xf9, 0x88, 0x08,
    0x08, 0x08, 0x7f, 0xff, 0xcc, 0x40, 0x40, 0x40, 0x43, 0xff, 0xfe, 0x62, 0x02, 0x02, 0x02, 0x1f,
    0xff, 0xf3, 0x10, 0x10, 0x10, 0x10, 0xff, 0xff, 0x98, 0x80, 0x80, 0x80, 0x87, 0xff, 0xfc, 0xc4,
    0x04, 0x04, 0x04, 0x3f, 0xff, 0xe6, 0x20, 0x20, 0x20, 0x21, 0xff, 0xff, 0x31, 0x01, 0x01, 0x01,
    0x0f, 0xff, 0xf9, 0x88, 0x08, 0x08, 0x08, 0x7f, 0xff, 0xcc, 0x40, 0x40, 0x40, 0x43, 0xff, 0xfe,
    0x62, 0x02, 0x02, 0x02, 0x1f, 0xff, 0xf3, 0x10, 0x10, 0x10, 0x10, 0xff, 0xff, 0x98, 0x80, 0x80,
    0x80, 0x87, 0xff, 0xfc, 0xc4, 0x04, 0x04, 0x04, 0x3f, 0xff, 0xe6, 0x20, 0x20, 0x20, 0x21, 0xff,
    0xff, 0x31, 0x01, 0x01, 0x01, 0x0f, 0xff, 0xf9, 0x88, 0x08, 0x08, 0x08, 0x7f, 0xff, 0xcc, 0x40,
    0x40, 0x40, 0x43, 0xff, 0xfe, 0x62, 0x02, 0x02, 0x02, 0x1f, 0xff, 0xf3, 0x10, 0x10, 0x10, 0x10,
    0xff, 0xff, 0x98, 0x80, 0x80, 0x80, 0x87, 0xff, 0xfc, 0xc4, 0x04, 0x04, 0x04, 0x3f, 0xff, 0xe6,
    0x20, 0x20, 0x20, 0x21, 0xff, 0xff, 0x31, 0x01, 0x01, 0x01, 0x0f, 0xff, 0xf9, 0x88, 0x08, 0x08,
    0x08, 0x7f, 0xff, 0xcc, 0x40, 0x40, 0x40, 0x43, 0xff, 0xfe, 0x62, 0x02, 0x02, 0x02, 0x1f, 0xff,
    0xf3, 0x10, 0x10, 0x10, 0x10, 0xff, 0xff, 0x98, 0x80, 0x80, 0x80, 0x87, 0xff, 0xfc, 0xc4, 0x04,
    0x04, 0x04, 0x3f, 0xff, 0xe6, 0x20, 0x20, 0x20, 0x21, 0xff, 0xff, 0x31, 0x01, 0x01, 0x01, 0x0f,
    0xff, 0xf9, 0x88, 0x08, 0x08, 0x08, 0x7f, 0xff, 0xcc, 0x40, 0x40, 0x40, 0x43, 0xff, 0xfe, 0x62,
    0x02, 0x02, 0x02, 0x1f, 0xff, 0xf3, 0x10, 0x10, 0x10, 0x10, 0xff, 0xff, 0x98, 0x80, 0x80, 0x80,
    0x87, 0xff, 0xfc, 0xc4, 0x04, 0x04, 0x04, 0x3f, 0xff, 0xe6, 0x20, 0x20, 0x20, 0x21, 0xff, 0xff,
    0x31, 0x01, 0x01, 0x01, 0x0f, 0xff, 0xf9, 0x88, 0x08, 0x08, 0x08, 0x7f, 0xff, 0xcc, 0x40, 0x40,
    0x40, 0x43, 0xff, 0xfe, 0x62, 0x02, 0x02, 0x02, 0x1f, 0xff, 0xf3, 0x10, 0x10, 0x10, 0x10, 0xff,
    0xff, 0x98, 0x80, 0x80, 0x80, 0x87, 0xff, 0xfc, 0xc4, 0x04, 0x04, 0x04, 0x3f, 0xff, 0xe6, 0x20,
    0x20, 0x20, 0x21, 0xff, 0xff, 0x31, 0x01, 0x01, 0x01, 0x0f, 0xff, 0xf9, 0x88, 0x08, 0x08, 0x08,
    0x7f, 0xff, 0x80, 0x00, 0x00, 0x03, 0x67, 0x6d, 0x6f, 0x6f, 0x76, 0x00, 0x00, 0x00, 0x6c, 0x6d,
    0x76, 0x68, 0x64, 0x00, 0x00, 0x00, 0x00, 0x00, 0x00, 0x00, 0x00, 0x00, 0x00, 0x00, 0x00, 0x00,
    0x00, 0x03, 0xe8, 0x00, 0x00, 0x00, 0x22, 0x00, 0x01, 0x00, 0x00, 0x01, 0x00, 0x00, 0x00, 0x00,
    0x00, 0x00, 0x00, 0x00, 0x00, 0x00, 0x00, 0x00, 0x01, 0x00, 0x00, 0x00, 0x00, 0x00, 0x00, 0x00,
    0x00, 0x00, 0x00, 0x00, 0x00, 0x00, 0x00, 0x00, 0x01, 0x00, 0x00, 0x00, 0x00, 0x00, 0x00, 0x00,
    0x00, 0x00, 0x00, 0x00, 0x00, 0x00, 0x00, 0x40, 0x00, 0x00, 0x00, 0x00, 0x00, 0x00, 0x00, 0x00,
    0x00, 0x00, 0x00, 0x00, 0x00, 0x00, 0x00, 0x00, 0x00, 0x00, 0x00, 0x00, 0x00, 0x00, 0x00, 0x00,
    0x00, 0x00, 0x00, 0x00, 0x00, 0x00, 0x02, 0x00, 0x00, 0x02, 0x10, 0x74, 0x72, 0x61, 0x6b, 0x00,
    0x00, 0x00, 0x5c, 0x74, 0x6b, 0x68, 0x64, 0x00, 0x00, 0x00, 0x03, 0x00, 0x00, 0x00, 0x00, 0x00,
    0x00, 0x00, 0x00, 0x00, 0x00, 0x00, 0x01, 0x00, 0x00, 0x00, 0x00, 0x00, 0x00, 0x00, 0x22, 0x00,
    0x00, 0x00, 0x00, 0x00, 0x00, 0x00, 0x00, 0x00, 0x00, 0x00, 0x00, 0x00, 0x00, 0x00, 0x00, 0x00,
    0x01, 0x00, 0x00, 0x00, 0x00, 0x00, 0x00, 0x00, 0x00, 0x00, 0x00, 0x00, 0x00, 0x00, 0x00, 0x00,
    0x01, 0x00, 0x00, 0x00, 0x00, 0x00, 0x00, 0x00, 0x00, 0x00, 0x00, 0x00, 0x00, 0x00, 0x00, 0x40,
    0x00, 0x00, 0x00, 0x00, 0xd8, 0x00, 0x00, 0x00, 0x90, 0x00, 0x00, 0x00, 0x00, 0x00, 0x24, 0x65,
    0x64, 0x74, 0x73, 0x00, 0x00, 0x00, 0x1c, 0x65, 0x6c, 0x73, 0x74, 0x00, 0x00, 0x00, 0x00, 0x00,
    0x00, 0x00, 0x01, 0x00, 0x00, 0x00, 0x22, 0x00, 0x00, 0x00, 0x00, 0x00, 0x01, 0x00, 0x00, 0x00,
    0x00, 0x01, 0x88, 0x6d, 0x64, 0x69, 0x61, 0x00, 0x00, 0x00, 0x20, 0x6d, 0x64, 0x68, 0x64, 0x00,
    0x00, 0x00, 0x00, 0x00, 0x00, 0x00, 0x00, 0x00, 0x00, 0x00, 0x00, 0x00, 0x00, 0x3c, 0x00, 0x00,
    0x00, 0x02, 0x00, 0x55, 0xc4, 0x00, 0x00, 0x00, 0x00, 0x00, 0x2d, 0x68, 0x64, 0x6c, 0x72, 0x00,
    0x00, 0x00, 0x00, 0x00, 0x00, 0x00, 0x00, 0x76, 0x69, 0x64, 0x65, 0x00, 0x00, 0x00, 0x00, 0x00,
    0x00, 0x00, 0x00, 0x00, 0x00, 0x00, 0x00, 0x56, 0x69, 0x64, 0x65, 0x6f, 0x48, 0x61, 0x6e, 0x64,
    0x6c, 0x65, 0x72, 0x00, 0x00, 0x00, 0x01, 0x33, 0x6d, 0x69, 0x6e, 0x66, 0x00, 0x00, 0x00, 0x14,
    0x76, 0x6d, 0x68, 0x64, 0x00, 0x00, 0x00, 0x01, 0x00, 0x00, 0x00, 0x00, 0x00, 0x00, 0x00, 0x00,
    0x00, 0x00, 0x00, 0x24, 0x64, 0x69, 0x6e, 0x66, 0x00, 0x00, 0x00, 0x1c, 0x64, 0x72, 0x65, 0x66,
    0x00, 0x00, 0x00, 0x00, 0x00, 0x00, 0x00, 0x01, 0x00, 0x00, 0x00, 0x0c, 0x75, 0x72, 0x6c, 0x20,
    0x00, 0x00, 0x00, 0x01, 0x00, 0x00, 0x00, 0xf3, 0x73, 0x74, 0x62, 0x6c, 0x00, 0x00, 0x00, 0x8f,
    0x73, 0x74, 0x73, 0x64, 0x00, 0x00, 0x00, 0x00, 0x00, 0x00, 0x00, 0x01, 0x00, 0x00, 0x00, 0x7f,
    0x73, 0x32, 0x36, 0x33, 0x00, 0x00, 0x00, 0x00, 0x00, 0x00, 0x00, 0x01, 0x00, 0x00, 0x00, 0x00,
    0x00, 0x00, 0x00, 0x00, 0x00, 0x00, 0x00, 0x00, 0x00, 0x00, 0x00, 0x00, 0x00, 0xb0, 0x00, 0x90,
    0x00, 0x48, 0x00, 0x00, 0x00, 0x48, 0x00, 0x00, 0x00, 0x00, 0x00, 0x00, 0x00, 0x01, 0x00, 0x00,
    0x00, 0x00, 0x00, 0x00, 0x00, 0x00, 0x00, 0x00, 0x00, 0x00, 0x00, 0x00, 0x00, 0x00, 0x00, 0x00,
    0x00, 0x00, 0x00, 0x00, 0x00, 0x00, 0x00, 0x00, 0x00, 0x00, 0x00, 0x00, 0x00, 0x00, 0x00, 0x18,
    0xff, 0xff, 0x00, 0x00, 0x00, 0x0f, 0x64, 0x32, 0x36, 0x33, 0x46, 0x46, 0x4d, 0x50, 0x00, 0x0a,
    0x00, 0x00, 0x00, 0x00, 0x0a, 0x66, 0x69, 0x65, 0x6c, 0x01, 0x00, 0x00, 0x00, 0x00, 0x10, 0x70,
    0x61, 0x73, 0x70, 0x00, 0x00, 0x00, 0x1b, 0x00, 0x00, 0x00, 0x16, 0x00, 0x00, 0x00, 0x18, 0x73,
    0x74, 0x74, 0x73, 0x00, 0x00, 0x00, 0x00, 0x00, 0x00, 0x00, 0x01, 0x00, 0x00, 0x00, 0x01, 0x00,
    0x00, 0x02, 0x00, 0x00, 0x00, 0x00, 0x1c, 0x73, 0x74, 0x73, 0x63, 0x00, 0x00, 0x00, 0x00, 0x00,
    0x00, 0x00, 0x01, 0x00, 0x00, 0x00, 0x01, 0x00, 0x00, 0x00, 0x01, 0x00, 0x00, 0x00, 0x01, 0x00,
    0x00, 0x00, 0x14, 0x73, 0x74, 0x73, 0x7a, 0x00, 0x00, 0x00, 0x00, 0x00, 0x00, 0x02, 0x97, 0x00,
    0x00, 0x00, 0x01, 0x00, 0x00, 0x00, 0x14, 0x73, 0x74, 0x63, 0x6f, 0x00, 0x00, 0x00, 0x00, 0x00,
    0x00, 0x00, 0x01, 0x00, 0x00, 0x00, 0x2c, 0x00, 0x00, 0x00, 0xe3, 0x75, 0x64, 0x74, 0x61, 0x00,
    0x00, 0x00, 0x43, 0x70, 0x65, 0x72, 0x66, 0x00, 0x00, 0x00, 0x00, 0x15, 0xc7, 0x42, 0x6c, 0x65,
    0x6e, 0x64, 0x65, 0x72, 0x20, 0x46, 0x6f, 0x75, 0x6e, 0x64, 0x61, 0x74, 0x69, 0x6f, 0x6e, 0x20,
    0x32, 0x30, 0x30, 0x38, 0x2c, 0x20, 0x4a, 0x61, 0x6e, 0x75, 0x73, 0x20, 0x42, 0x61, 0x67, 0x65,
    0x72, 0x20, 0x4b, 0x72, 0x69, 0x73, 0x74, 0x65, 0x6e, 0x73, 0x65, 0x6e, 0x20, 0x32, 0x30, 0x31,
    0x33, 0x00, 0x00, 0x00, 0x00, 0x30, 0x74, 0x69, 0x74, 0x6c, 0x00, 0x00, 0x00, 0x00, 0x15, 0xc7,
    0x42, 0x69, 0x67, 0x20, 0x42, 0x75, 0x63, 0x6b, 0x20, 0x42, 0x75, 0x6e, 0x6e, 0x79, 0x2c, 0x20,
    0x53, 0x75, 0x6e, 0x66, 0x6c, 0x6f, 0x77, 0x65, 0x72, 0x20, 0x76, 0x65, 0x72, 0x73, 0x69, 0x6f,
    0x6e, 0x00, 0x00, 0x00, 0x00, 0x18, 0x67, 0x6e, 0x72, 0x65, 0x00, 0x00, 0x00, 0x00, 0x15, 0xc7,
    0x41, 0x6e, 0x69, 0x6d, 0x61, 0x74, 0x69, 0x6f, 0x6e, 0x00, 0x00, 0x00, 0x00, 0x50, 0x64, 0x73,
    0x63, 0x70, 0x00, 0x00, 0x00, 0x00, 0x15, 0xc7, 0x43, 0x72, 0x65, 0x61, 0x74, 0x69, 0x76, 0x65,
    0x20, 0x43, 0x6f, 0x6d, 0x6d, 0x6f, 0x6e, 0x73, 0x20, 0x41, 0x74, 0x74, 0x72, 0x69, 0x62, 0x75,
    0x74, 0x69, 0x6f, 0x6e, 0x20, 0x33, 0x2e, 0x30, 0x20, 0x2d, 0x20, 0x68, 0x74, 0x74, 0x70, 0x3a,
    0x2f, 0x2f, 0x62, 0x62, 0x62, 0x33, 0x64, 0x2e, 0x72, 0x65, 0x6e, 0x64, 0x65, 0x72, 0x66, 0x61,
    0x72, 0x6d, 0x69, 0x6e, 0x67, 0x2e, 0x6e, 0x65, 0x74, 0x00,
];

#[test]
fn parses_a_one_frame_video() {
    let meta = parse_mp4_metadata(&ONE_FRAME_3GP).expect("parses");
    assert_eq!(meta.track_count, 1);
    assert!(!meta.has_audio);
    assert_eq!(meta.video_codec, None);
    assert_eq!(meta.duration, Some(ScaledDuration { units: 512, timescale: 15360 }));
}

#[test]
fn scans_the_one_frame_video() {
    // the track header records a 216x144 display size
    assert_eq!(scan_video_tkhd_dimensions(&ONE_FRAME_3GP), (Some(216), Some(144)));
    // cut inside the movie box, the walk meets a header past the end
    assert_eq!(try_scan_video_tkhd_dimensions(&ONE_FRAME_3GP[..1059]), None);
}

#[test]
fn reports_parse_errors() {
    let err = parse_mp4_metadata(&[0u8, 0, 0, 16, b'f', b'r', b'e', b'e']).unwrap_err();
    assert!(err.starts_with("MP4 parse error: "), "{}", err);
    assert!(err.len() > "MP4 parse error: ".len());
    let empty = parse_mp4_metadata(&[]).unwrap_err();
    assert!(empty.starts_with("MP4 parse error: "), "{}", empty);
}

#[test]
fn truncated_video_is_an_error() {
    assert!(parse_mp4_metadata(&ONE_FRAME_3GP[..800]).is_err());
}

fn track(kind: TrackKind, duration: Option<u64>, timescale: Option<u64>) -> TrackInfo {
    TrackInfo { kind, duration, timescale }
}

#[test]
fn summary_takes_first_video_track() {
    let tracks = vec![
        track(TrackKind::Audio, Some(10), Some(100)),
        track(TrackKind::Video, Some(90), Some(30)),
        track(TrackKind::Video, Some(7), Some(7)),
    ];
    let m = summarize_tracks(&tracks);
    assert_eq!(m.duration, Some(ScaledDuration { units: 90, timescale: 30 }));
    assert!(m.has_audio);
    assert_eq!(m.track_count, 3);
    assert_eq!(m.video_codec, None);
}

#[test]
fn summary_needs_duration_and_timescale() {
    let tracks = vec![
        track(TrackKind::Video, Some(90), None),
        track(TrackKind::Video, Some(7), Some(7)),
    ];
    let m = summarize_tracks(&tracks);
    assert_eq!(m.duration, None);
    assert!(!m.has_audio);
    let none = summarize_tracks(&vec![]);
    assert_eq!(none.duration, None);
    assert_eq!(none.track_count, 0);
}

#[test]
fn summary_ignores_other_kinds() {
    let tracks = vec![
        track(TrackKind::Metadata, Some(1), Some(1)),
        track(TrackKind::Picture, Some(1), Some(1)),
        track(TrackKind::AuxiliaryVideo, Some(1), Some(1)),
        track(TrackKind::Unknown, Some(1), Some(1)),
    ];
    let m = summarize_tracks(&tracks);
    assert_eq!(m.duration, None);
    assert!(!m.has_audio);
    assert_eq!(m.track_count, 4);
}

#[test]
fn selects_mp4_names_in_any_case() {
    assert!(is_mp4_file_name("clip.mp4"));
    assert!(is_mp4_file_name("CLIP.MP4"));
    assert!(is_mp4_file_name("a.Mp4"));
    assert!(is_mp4_file_name(".mp4"));
    assert!(is_mp4_file_name("\u{130}.mP4"));
    assert!(!is_mp4_file_name("clip.mp3"));
    assert!(!is_mp4_file_name("clip.mov"));
    assert!(!is_mp4_file_name("mp4"));
    assert!(!is_mp4_file_name("clip.mp4 "));
    assert!(!is_mp4_file_name(""));
    assert!(!is_mp4_file_name("clip\u{130}mp4"));
}

#[test]
fn failed_request_gives_an_empty_entry() {
    let empty = batch_entry(9, Err("Download error: timeout".to_string()));
    assert_eq!(empty, BatchMetadataEntry { message_id: 9, duration: None, width: None, height: None });
    let d = ScaledDuration { units: 512, timescale: 15360 };
    let full = batch_entry(4, Ok((Some(d), (Some(216), Some(144)))));
    assert_eq!(full, BatchMetadataEntry { message_id: 4, duration: Some(d), width: Some(216), height: Some(144) });
}
