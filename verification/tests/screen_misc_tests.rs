use osirs::colors::{colors, image};
use osirs::interrupts::{HandleTypedKey, InterruptIndex};
use osirs::clock::ClockState;
use osirs::linear_vga::{char_to_vga, scroll, str_to_vga, Dummy, LinearWriter};
use osirs::memory::{BootInfoFrameAllocator, MemoryRegion};
use osirs::vga::{Screen, Writer};

#[test]
fn linear_console_writes_and_breaks_lines() {
    let mut l = LinearWriter::new();
    let mut s = Screen::new();
    str_to_vga(&mut l, &mut s, "Hi\nA");
    assert_eq!(&s.Cells[0..4], &[b'H', 0x0f, b'i', 0x0f]);
    assert_eq!(s.Cells[160], b'A');
    assert_eq!(l.Latest, 81);
}

#[test]
fn linear_console_scrolls_when_full() {
    let mut l = LinearWriter::new();
    let mut s = Screen::new();
    char_to_vga(&mut l, &mut s, b'x');
    l.Latest = 80;
    char_to_vga(&mut l, &mut s, b'y');
    l.Latest = 2000;
    char_to_vga(&mut l, &mut s, b'z');
    assert_eq!(s.Cells[0], b'y');
    assert_eq!(s.Cells[2 * 1920], b'z');
    assert_eq!(s.Cells[2 * 1921], b' ');
    assert_eq!(l.Latest, 1921);
}

#[test]
fn scroll_moves_latest_back_a_row() {
    let mut l = LinearWriter::new();
    let mut s = Screen::new();
    l.Latest = 50;
    scroll(&mut l, &mut s);
    assert_eq!(l.Latest, 0);
    assert_eq!(s.Cells[1], 0x0f);
}

#[test]
fn dummy_writes_like_str_to_vga() {
    let mut d = Dummy {};
    let mut l = LinearWriter::new();
    let mut s = Screen::new();
    d.write_str(&mut l, &mut s, "ok");
    assert_eq!(&s.Cells[0..4], &[b'o', 0x0f, b'k', 0x0f]);
}

#[test]
fn colour_bands() {
    let mut s = Screen::new();
    colors(&mut s);
    assert_eq!(s.Cells[0], b' ');
    assert_eq!(s.Cells[1], 0x00);
    assert_eq!(s.Cells[2 * 5 + 1], 0x10);
    assert_eq!(s.Cells[2 * 79 + 1], 0xF0);
    assert_eq!(s.Cells[2 * (80 + 12) + 1], 0x20);
}

#[test]
fn picture_uses_low_nibble_as_background() {
    let mut s = Screen::new();
    let mut img = vec![0u8; 2000];
    img[3] = 0x2A;
    image(&mut s, &img);
    assert_eq!(s.Cells[2 * 3], b' ');
    assert_eq!(s.Cells[2 * 3 + 1], 0xA0);
    assert_eq!(s.Cells[1], 0);
}

#[test]
fn interrupt_vectors() {
    assert_eq!(InterruptIndex::Timer.AsU8(), 32);
    assert_eq!(InterruptIndex::Keyboard.AsU8(), 33);
    assert_eq!(InterruptIndex::Keyboard.AsUsize(), 33);
}

#[test]
fn typed_key_goes_to_clock_then_echoes() {
    let mut c = ClockState::New();
    let mut w = Writer::new();
    let mut s = Screen::new();
    for d in "010203".chars() {
        HandleTypedKey(&mut c, &mut w, &mut s, Some(d), 0);
    }
    assert!(c.IsInitialized);
    assert_eq!((c.Hours, c.Minutes, c.Seconds), (1, 2, 3));
    let r = HandleTypedKey(&mut c, &mut w, &mut s, Some('k'), 0);
    assert!(r.is_empty());
    assert_eq!(s.Cells[2 * 80], b'k');
    assert_eq!((w.RowPosition, w.ColumnPosition), (1, 1));
    HandleTypedKey(&mut c, &mut w, &mut s, None, 0);
    assert_eq!(w.ColumnPosition, 1);
}

#[test]
fn frames_come_from_usable_regions_in_order() {
    let regions = vec![
        MemoryRegion { StartAddr: 0, EndAddr: 0x1000, Usable: false },
        MemoryRegion { StartAddr: 0x2000, EndAddr: 0x4000, Usable: true },
        MemoryRegion { StartAddr: 0x10000, EndAddr: 0x10800, Usable: true },
    ];
    let mut a = BootInfoFrameAllocator::Init(regions);
    assert_eq!(a.allocate_frame(), Some(0x2000));
    assert_eq!(a.allocate_frame(), Some(0x3000));
    assert_eq!(a.allocate_frame(), Some(0x10000));
    assert_eq!(a.allocate_frame(), None);
    assert_eq!(a.Next, 4);
}

#[test]
fn unaligned_region_start_gives_its_frame() {
    let regions = vec![MemoryRegion { StartAddr: 0x1234, EndAddr: 0x3000, Usable: true }];
    let mut a = BootInfoFrameAllocator::Init(regions);
    assert_eq!(a.allocate_frame(), Some(0x1000));
    assert_eq!(a.allocate_frame(), Some(0x2000));
    assert_eq!(a.allocate_frame(), None);
}

#[test]
fn frames_past_the_limit_are_found_only_when_reached() {
    let regions = vec![
        MemoryRegion { StartAddr: 0x1000, EndAddr: 0x2000, Usable: true },
        MemoryRegion { StartAddr: 0x10_0000_0000_0000, EndAddr: 0x10_0000_0000_2000, Usable: true },
    ];
    let mut a = BootInfoFrameAllocator::Init(regions);
    assert!(a.ReachedFramesBelowLimit());
    assert_eq!(a.allocate_frame(), Some(0x1000));
    assert!(!a.ReachedFramesBelowLimit());
}
