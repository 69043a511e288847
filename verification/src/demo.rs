//! The built-in example: an index to look at without scanning a machine.

use crate::index::{Index, IndexView};
use crate::mounts::{FsKind, FsView};
use crate::types::{FileKind, FileRecord, RecordView};
use vstd::prelude::*;

verus! {

/// The time so many hours before another, as far as it can be told.
pub open spec fn hours_before(now: i64, hours: int) -> i64 {
    if now - hours * 3_600 < i64::MIN {
        i64::MIN
    } else {
        (now - hours * 3_600) as i64
    }
}

/// A record of the example.
pub open spec fn example_record(
    now: i64,
    path: Seq<char>,
    size: u64,
    hours: int,
    kind: FileKind,
    network: bool,
    id: u64,
) -> RecordView {
    RecordView {
        path,
        size,
        mtime: hours_before(now, hours),
        mode: if kind == FileKind::Dir {
            0o040755
        } else {
            0o100644
        },
        kind,
        fs: if network {
            FsView::Network("smb3"@)
        } else {
            FsView::Ext4
        },
        native_id: id,
        native_parent: if id > 0 {
            (id - 1) as u64
        } else {
            0
        },
        source: 0,
    }
}

/// The records that are written out one by one.
pub open spec fn chosen_records(now: i64) -> Seq<RecordView> {
    seq![
        example_record(now, "/home/alex/Documents/Accounts"@, 0, 3, FileKind::Dir, false, 10),
        example_record(now, "/home/alex/Documents/Projects"@, 0, 5, FileKind::Dir, false, 11),
        example_record(now, "/home/alex/Downloads"@, 0, 6, FileKind::Dir, false, 12),
        example_record(now, "/mnt/studio/Clients/Invoices"@, 0, 7, FileKind::Dir, true, 13),
        example_record(now, "/home/alex/Documents/Accounts/Invoice - Acme - June.pdf"@, 493_568, 1, FileKind::File, false, 20),
        example_record(now, "/home/alex/Documents/Accounts/invoice-tracker.xlsx"@, 88_064, 4, FileKind::File, false, 21),
        example_record(now, "/home/alex/Documents/Accounts/invoice-template.docx"@, 43_008, 9, FileKind::File, false, 22),
        example_record(now, "/home/alex/Documents/Accounts/发票-上海-七月.pdf"@, 737_280, 12, FileKind::File, false, 23),
        example_record(now, "/home/alex/Documents/Accounts/فاتورة-يوليو.pdf"@, 629_760, 16, FileKind::File, false, 24),
        example_record(now, "/home/alex/Documents/Accounts/चालान-जुलाई.pdf"@, 542_720, 20, FileKind::File, false, 25),
        example_record(now, "/home/alex/Documents/Projects/Aurora/site-plan.svg"@, 1_576_960, 25, FileKind::File, false, 26),
        example_record(now, "/home/alex/Pictures/Library/photo-library.bin"@, 88_046_829_568, 32, FileKind::File, false, 27),
        example_record(now, "/home/alex/Games/Orion/game-data.pak"@, 126_701_535_232, 40, FileKind::File, false, 28),
        example_record(now, "/home/alex/Videos/family-video.mp4"@, 19_327_352_832, 48, FileKind::File, false, 29),
        example_record(now, "/var/lib/containers/container-storage.bin"@, 41_875_931_136, 52, FileKind::File, false, 30),
        example_record(now, "/usr/lib/runtime-libraries.bin"@, 28_991_029_248, 55, FileKind::File, false, 31),
        example_record(now, "/mnt/studio/Media/camera-originals.bin"@, 176_093_659_136, 60, FileKind::File, true, 32),
    ]
}

/// The folders that the invoices lie in, in turn.
pub open spec fn invoice_folder(i: int) -> Seq<char> {
    if i % 5 == 0 {
        "/home/alex/Documents/Accounts/2026"@
    } else if i % 5 == 1 {
        "/home/alex/Documents/Accounts/2025"@
    } else if i % 5 == 2 {
        "/mnt/studio/Clients/Invoices"@
    } else if i % 5 == 3 {
        "/home/alex/Downloads"@
    } else {
        "/home/alex/Work/Operations/Billing"@
    }
}

/// The file types of the invoices, in turn.
pub open spec fn invoice_type(i: int) -> Seq<char> {
    if i % 6 == 0 || i % 6 == 1 {
        "pdf"@
    } else if i % 6 == 2 {
        "xlsx"@
    } else if i % 6 == 3 {
        "docx"@
    } else if i % 6 == 4 {
        "zip"@
    } else {
        "png"@
    }
}

/// The path of an invoice.
pub open spec fn invoice_path(i: int) -> Seq<char> {
    invoice_folder(i) + "/invoice-"@ + crate::text::decimal((2026 - i % 3) as nat) + "-"@
        + crate::display::padded((i % 12 + 1) as nat, 2) + "-"@ + crate::display::padded(
        (i + 1042) as nat,
        4,
    ) + "."@ + invoice_type(i)
}

/// An invoice.
pub open spec fn invoice(now: i64, i: int) -> RecordView {
    example_record(
        now,
        invoice_path(i),
        (184_320 + (i * 177_152) % 9_437_184) as u64,
        2 + i * 3,
        FileKind::File,
        i % 5 == 2,
        (100 + i + i % 6) as u64,
    )
}

/// How many invoices there are.
pub const INVOICES: u64 = 48;

/// The records of the example.
pub open spec fn example_records(now: i64) -> Seq<RecordView> {
    chosen_records(now) + Seq::new(INVOICES as nat, |i: int| invoice(now, i))
}

fn push_row(
    out: &mut Vec<FileRecord>,
    now: i64,
    path: String,
    size: u64,
    hours: i64,
    kind: FileKind,
    network: bool,
    id: u64,
)
    requires
        0 <= hours <= 1_000,
    ensures
        crate::types::record_views(final(out)@) == crate::types::record_views(old(out)@).push(
            example_record(now, path@, size, hours as int, kind, network, id),
        ),
{
    let ghost before = out@;
    let record = FileRecord {
        path,
        size,
        mtime: if now < i64::MIN + hours * 3_600 {
            i64::MIN
        } else {
            now - hours * 3_600
        },
        mode: if kind == FileKind::Dir {
            0o040755
        } else {
            0o100644
        },
        kind,
        fs: if network {
            FsKind::Network("smb3".to_owned())
        } else {
            FsKind::Ext4
        },
        native_id: id,
        native_parent: id.saturating_sub(1),
        source: 0,
    };
    out.push(record);
    assert(crate::types::record_views(out@) =~= crate::types::record_views(before).push(record@));
}

fn push_chosen(out: &mut Vec<FileRecord>, now: i64)
    requires
        old(out)@.len() == 0,
    ensures
        crate::types::record_views(final(out)@) == chosen_records(now),
{
    assert(crate::types::record_views(out@) =~= Seq::empty());
    push_row(out, now, "/home/alex/Documents/Accounts".to_owned(), 0, 3, FileKind::Dir, false, 10);
    push_row(out, now, "/home/alex/Documents/Projects".to_owned(), 0, 5, FileKind::Dir, false, 11);
    push_row(out, now, "/home/alex/Downloads".to_owned(), 0, 6, FileKind::Dir, false, 12);
    push_row(out, now, "/mnt/studio/Clients/Invoices".to_owned(), 0, 7, FileKind::Dir, true, 13);
    push_row(out, now, "/home/alex/Documents/Accounts/Invoice - Acme - June.pdf".to_owned(), 493_568, 1, FileKind::File, false, 20);
    push_row(out, now, "/home/alex/Documents/Accounts/invoice-tracker.xlsx".to_owned(), 88_064, 4, FileKind::File, false, 21);
    push_row(out, now, "/home/alex/Documents/Accounts/invoice-template.docx".to_owned(), 43_008, 9, FileKind::File, false, 22);
    push_row(out, now, "/home/alex/Documents/Accounts/发票-上海-七月.pdf".to_owned(), 737_280, 12, FileKind::File, false, 23);
    push_row(out, now, "/home/alex/Documents/Accounts/فاتورة-يوليو.pdf".to_owned(), 629_760, 16, FileKind::File, false, 24);
    push_row(out, now, "/home/alex/Documents/Accounts/चालान-जुलाई.pdf".to_owned(), 542_720, 20, FileKind::File, false, 25);
    push_row(out, now, "/home/alex/Documents/Projects/Aurora/site-plan.svg".to_owned(), 1_576_960, 25, FileKind::File, false, 26);
    push_row(out, now, "/home/alex/Pictures/Library/photo-library.bin".to_owned(), 88_046_829_568, 32, FileKind::File, false, 27);
    push_row(out, now, "/home/alex/Games/Orion/game-data.pak".to_owned(), 126_701_535_232, 40, FileKind::File, false, 28);
    push_row(out, now, "/home/alex/Videos/family-video.mp4".to_owned(), 19_327_352_832, 48, FileKind::File, false, 29);
    push_row(out, now, "/var/lib/containers/container-storage.bin".to_owned(), 41_875_931_136, 52, FileKind::File, false, 30);
    push_row(out, now, "/usr/lib/runtime-libraries.bin".to_owned(), 28_991_029_248, 55, FileKind::File, false, 31);
    push_row(out, now, "/mnt/studio/Media/camera-originals.bin".to_owned(), 176_093_659_136, 60, FileKind::File, true, 32);
}

fn make_path(i: u64) -> (r: String)
    requires
        i < INVOICES,
    ensures
        r@ == invoice_path(i as int),
{
    let folder = match i % 5 {
        0 => "/home/alex/Documents/Accounts/2026",
        1 => "/home/alex/Documents/Accounts/2025",
        2 => "/mnt/studio/Clients/Invoices",
        3 => "/home/alex/Downloads",
        _ => "/home/alex/Work/Operations/Billing",
    };
    let extension = match i % 6 {
        0 => "pdf",
        1 => "pdf",
        2 => "xlsx",
        3 => "docx",
        4 => "zip",
        _ => "png",
    };
    let year = crate::text::decimal_text(2026 - i % 3);
    let month = crate::display::padded_text(i % 12 + 1, 2);
    let number = crate::display::padded_text(i + 1042, 4);
    let a = crate::text::joined3(folder, "/invoice-", year.as_str());
    let b = crate::text::joined3(a.as_str(), "-", month.as_str());
    let c = crate::text::joined3(b.as_str(), "-", number.as_str());
    crate::text::joined3(c.as_str(), ".", extension)
}

/// The built-in example, as of a time in Unix seconds.
pub fn reference_index(now: i64) -> (r: Index)
    ensures
        r@ == (IndexView { records: example_records(now), generation: 1 }),
{
    let mut out: Vec<FileRecord> = Vec::new();
    push_chosen(&mut out, now);
    let mut i: u64 = 0;
    assert(chosen_records(now) + Seq::new(0, |k: int| invoice(now, k)) =~= chosen_records(now));
    while i < INVOICES
        invariant
            i <= INVOICES,
            crate::types::record_views(out@) == chosen_records(now) + Seq::new(
                i as nat,
                |k: int| invoice(now, k),
            ),
        decreases INVOICES - i,
    {
        let path = make_path(i);
        let size: u64 = 184_320 + (i * 177_152) % 9_437_184;
        let ghost before = crate::types::record_views(out@);
        push_row(
            &mut out,
            now,
            path,
            size,
            2 + i as i64 * 3,
            FileKind::File,
            i % 5 == 2,
            100 + i + i % 6,
        );
        proof {
            assert(crate::types::record_views(out@) =~= before.push(invoice(now, i as int)));
            assert(before.push(invoice(now, i as int)) =~= chosen_records(now) + Seq::new(
                (i + 1) as nat,
                |k: int| invoice(now, k),
            ));
        }
        i += 1;
    }
    let mut index = Index::new();
    index.extend(out);
    assert(Seq::<RecordView>::empty() + example_records(now) =~= example_records(now));
    index
}

} // verus!
