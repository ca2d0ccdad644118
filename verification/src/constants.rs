//! Fixed parameters of the clipboard history.

use vstd::prelude::*;

verus! {

/// Most entries the history keeps; older ones are evicted.
pub const MAX_HISTORY: usize = 256;

/// Characters of text kept as an entry's preview.
pub const PREVIEW_CHARS: usize = 100;

/// MIME type used when none is given.
pub const DEFAULT_MIME: &'static str = "text/plain;charset=utf-8";

/// MIME type of a list of URIs, as file managers copy files.
pub const MIME_URI_LIST: &'static str = "text/uri-list";

/// Marks, in a MIME type, of content that password managers ask not to be
/// kept.
pub const SENSITIVE_MIME_HINTS: [&'static str; 3] = ["x-kde-passwordmanagerhint", "password", "secret"];

/// Names under which text is commonly offered on the clipboard.
pub const TEXT_ALIASES: [&'static str; 7] = [
    "text/plain",
    "text/plain;charset=utf-8",
    "text/plain;charset=UTF-8",
    "UTF8_STRING",
    "STRING",
    "TEXT",
    "COMPOUND_TEXT",
];

/// Extra MIME types offered when text is put back on the clipboard.
pub const TEXT_MIME_ALTS: [&'static str; 4] = ["text/plain", "UTF8_STRING", "STRING", "TEXT"];

/// MIME types preferred when taking a selection, most preferred first.
pub const SELECTION_PRIORITY: [&'static str; 7] = [
    "image/webp",
    "image/png",
    "image/jpeg",
    "image/gif",
    "text/uri-list",
    "text/plain;charset=utf-8",
    "text/plain",
];

/// Directory, under the data home, that holds the database.
pub const DB_DIR_NAME: &'static str = "y1-clipboard";

/// File name of the database.
pub const DB_FILE_NAME: &'static str = "y1_clipboard.sqlite";

/// Wayland global of the clipboard control protocol.
pub const INTERFACE_MANAGER: &'static str = "ext_data_control_manager_v1";

/// Wayland global of a seat.
pub const INTERFACE_SEAT: &'static str = "wl_seat";

/// Prefix of the program's informational messages.
pub const LOG_INFO: &'static str = "[y1-clip] ";

/// Columns of a listing's position column, brackets included.
pub const WIDTH_ID: usize = 6;

/// Columns of a listing's time column.
pub const WIDTH_WHEN: usize = 10;

/// Columns of a listing's size column, unit included.
pub const WIDTH_SIZE: usize = 10;

/// Columns a listed preview is fitted to.
pub const PREVIEW_WIDTH: usize = 60;

/// Columns of an entry's kind label.
pub const LABEL_WIDTH: usize = 6;

/// Separator between the columns of a listing.
pub const TABLE_SEP: &'static str = " | ";

/// Columns of `TABLE_SEP`.
pub const SEP_WIDTH: usize = 3;

/// Width of a listing's rules.
pub const TABLE_WIDTH: usize = WIDTH_ID + WIDTH_WHEN + WIDTH_SIZE + PREVIEW_WIDTH + LABEL_WIDTH + 3 * SEP_WIDTH;

/// Character that a listing's rules repeat.
pub const TABLE_LINE_CHAR: &'static str = "-";

/// Column headings of a listing.
pub const LIST_HEADER_ID: &'static str = "ID";
pub const LIST_HEADER_WHEN: &'static str = "WHEN";
pub const LIST_HEADER_SIZE: &'static str = "SIZE";
pub const LIST_HEADER_CONTENT: &'static str = "CONTENT";

} // verus!
