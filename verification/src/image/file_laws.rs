//! Laws of image files: what the name of a file decides.

use crate::error::ErrorView;
use crate::format::DiskImageFormat;
use crate::image::files;
use crate::image::sector_laws;
use crate::image::track::TrackView;
use crate::image::ImageView;
use crate::io::paths;
use crate::io::paths::FileKind;
use crate::text;
use vstd::prelude::*;

verus! {

/// Whether a track has `n` sectors, all of `size` bytes and with that size in their ID fields,
/// and among them every ID number from 1 to `n`.
pub open spec fn plain_track(t: TrackView, n: int, code: u8, size: int) -> bool {
    &&& t.sectors.len() == n
    &&& forall|i: int| 0 <= i < n ==> (#[trigger] t.sectors[i]).data.len() == size && t.sectors[i].id.size_code == code
    &&& forall|id: u8| 1 <= id <= n ==> #[trigger] has_id(t, id)
}

/// Whether a track has a sector with this ID number.
pub open spec fn has_id(t: TrackView, id: u8) -> bool {
    exists|i: int| 0 <= i < t.sectors.len() && (#[trigger] t.sectors[i]).id.sector == id
}

/// Whether an image has `tracks` plain tracks on each of its sides.
pub open spec fn plain_image(image: ImageView, tracks: int, n: int, code: u8, size: int) -> bool {
    &&& image.spec.num_sides == image.disks.len()
    &&& image.spec.num_tracks == tracks
    &&& forall|s: int| 0 <= s < image.disks.len() ==> (#[trigger] image.disks[s]).tracks.len() == tracks
    &&& forall|s: int, t: int|
        0 <= s < image.disks.len() && 0 <= t < tracks ==> plain_track(#[trigger] image.disks[s].tracks[t], n, code, size)
}

/// Whether `base`, a dot and `ext` make up a path that ends in a file name with that extension.
pub open spec fn file_path(base: Seq<char>, ext: Seq<char>) -> bool {
    &&& base.len() > 0
    &&& base.last() != '/'
    &&& ext.len() > 0
    &&& forall|i: int| 0 <= i < ext.len() ==> #[trigger] ext[i] != '/' && ext[i] != '.'
}

/// A path of `base`, a dot and `ext`.
pub open spec fn path_of(base: Seq<char>, ext: Seq<char>) -> Seq<char> {
    base + seq!['.'] + ext
}

/// The last `c` of a text, told by what stands behind it.
proof fn lemma_rfind(s: Seq<char>, c: char, i: int)
    requires
        0 <= i < s.len(),
        s[i] == c,
        forall|k: int| i < k < s.len() ==> #[trigger] s[k] != c,
    ensures
        text::rfind(s, c) == Some(i),
    decreases s.len(),
{
    if i < s.len() - 1 {
        assert(s.last() == s[s.len() - 1]);
        lemma_rfind(s.drop_last(), c, i);
    }
}

/// Where the last `c` of a text can be.
proof fn lemma_rfind_found(s: Seq<char>, c: char)
    ensures
        text::rfind(s, c) matches Some(i) ==> 0 <= i < s.len() && s[i] == c,
    decreases s.len(),
{
    if s.len() > 0 && s.last() != c {
        lemma_rfind_found(s.drop_last(), c);
    }
}

/// The extension of a path.
proof fn lemma_extension(base: Seq<char>, ext: Seq<char>)
    requires
        file_path(base, ext),
    ensures
        paths::extension(path_of(base, ext)) == Some(ext),
        paths::file_name(path_of(base, ext)) is Some,
{
    let path = path_of(base, ext);
    let dot = base.len() as int;
    assert(path.last() == ext.last() && ext.last() == ext[ext.len() - 1]);
    assert(paths::without_tail(path) == path);
    lemma_rfind_found(path, '/');
    let from = match text::rfind(path, '/') {
        None => 0,
        Some(i) => i + 1,
    };
    if let Some(i) = text::rfind(path, '/') {
        assert(i < dot - 1) by {
            if i > dot {
                assert(path[i] == ext[i - dot - 1]);
            } else if i == dot - 1 {
                assert(path[i] == base.last());
            }
        }
    }
    let name = paths::behind_slash(path);
    assert(name =~= path.skip(from));
    assert(name.len() >= 2 + ext.len());
    assert(name.last() == ext[ext.len() - 1]);
    assert(name != seq!['.'] && name != seq!['.', '.']) by {
        assert(seq!['.'].last() == '.' && seq!['.', '.'].last() == '.');
    }
    assert forall|k: int| dot - from < k < name.len() implies #[trigger] name[k] != '.' by {
        assert(name[k] == ext[k + from - dot - 1]);
    }
    lemma_rfind(name, '.', dot - from);
    assert(name.skip(dot - from + 1) =~= ext);
}

/// Whether `c` is the letter `lower`, in lower or in upper case.
pub open spec fn letter(c: char, lower: char, upper: char) -> bool {
    c == lower || c == upper
}

/// Whether a path has an extension is decided letter by letter.
proof fn lemma_matches(base: Seq<char>, ext: Seq<char>)
    requires
        file_path(base, ext),
    ensures
        ext.len() == 3 && letter(ext[0], 't', 'T') && letter(ext[1], 'r', 'R') && letter(ext[2], 'd', 'D')
            <==> paths::has_extension(path_of(base, ext), "trd"@),
        ext.len() == 3 && letter(ext[0], 'm', 'M') && letter(ext[1], 'g', 'G') && letter(ext[2], 't', 'T')
            <==> paths::has_extension(path_of(base, ext), "mgt"@),
        ext.len() == 3 && letter(ext[0], 't', 'T') && letter(ext[1], 'd', 'D') && ext[2] == '0'
            <==> paths::has_extension(path_of(base, ext), "td0"@),
        ext.len() == 3 && letter(ext[0], 'd', 'D') && letter(ext[1], 's', 'S') && letter(ext[2], 'k', 'K')
            <==> paths::has_extension(path_of(base, ext), "dsk"@),
        ext.len() == 4 && letter(ext[0], 'j', 'J') && letter(ext[1], 's', 'S') && letter(ext[2], 'o', 'O') && letter(
            ext[3],
            'n',
            'N',
        ) <==> paths::has_extension(path_of(base, ext), "json"@),
{
    lemma_extension(base, ext);
    reveal_strlit("trd");
    reveal_strlit("mgt");
    reveal_strlit("td0");
    reveal_strlit("dsk");
    reveal_strlit("json");
    lemma_same(ext, "trd"@);
    lemma_same(ext, "mgt"@);
    lemma_same(ext, "td0"@);
    lemma_same(ext, "dsk"@);
    lemma_same(ext, "json"@);
}

/// Names are the same letter by letter.
proof fn lemma_same(a: Seq<char>, b: Seq<char>)
    ensures
        text::same_name(a, b) <==> a.len() == b.len() && forall|i: int|
            0 <= i < a.len() ==> text::upper(#[trigger] a[i]) == text::upper(b[i]),
        text::same_name(a, b) && a.len() == 3 ==> text::upper(a[0]) == text::upper(b[0]) && text::upper(a[1])
            == text::upper(b[1]) && text::upper(a[2]) == text::upper(b[2]),
        text::same_name(a, b) && a.len() == 4 ==> text::upper(a[0]) == text::upper(b[0]) && text::upper(a[1])
            == text::upper(b[1]) && text::upper(a[2]) == text::upper(b[2]) && text::upper(a[3]) == text::upper(b[3]),
{
    let x = text::upper_all(a);
    let y = text::upper_all(b);
    if x == y {
        assert(x.len() == a.len() && y.len() == b.len());
        assert forall|i: int| 0 <= i < a.len() implies text::upper(#[trigger] a[i]) == text::upper(b[i]) by {
            assert(x[i] == y[i]);
        }
    } else if a.len() == b.len() && forall|i: int| 0 <= i < a.len() ==> text::upper(#[trigger] a[i]) == text::upper(b[i]) {
        assert(x =~= y);
    }
}

/// A sector that is there is found.
proof fn lemma_plain(t: TrackView, n: u8, code: u8, size: int)
    requires
        plain_track(t, n as int, code, size),
        code <= 7,
        size == sector_laws::doubled(code as int),
    ensures
        files::raw_track(t, n, size),
{
    reveal_with_fuel(sector_laws::doubled, 9);
    assert forall|id: u8| 1 <= id <= n implies #[trigger] files::raw_sector(t, id, size) by {
        assert(has_id(t, id));
        crate::image::track::lemma_find(t, id, 0);
    }
}

/// A path that ends in `.trd`, in whatever case, takes an image with 1 to 80 tracks on each of
/// its sides and on every track the sectors 1 to 16 with 256 bytes each, whatever the number
/// of sides. Nothing else is written to it.
pub proof fn law_trd_takes_plain_images(image: ImageView, base: Seq<char>, ext: Seq<char>)
    requires
        file_path(base, ext),
        ext.len() == 3 && letter(ext[0], 't', 'T') && letter(ext[1], 'r', 'R') && letter(ext[2], 'd', 'D'),
    ensures
        1 <= image.spec.num_tracks <= 80 && plain_image(image, image.spec.num_tracks as int, 16, 1, 256) ==> files::target(
            image,
            path_of(base, ext),
        ) == Ok::<Option<DiskImageFormat>, ErrorView>(Some(DiskImageFormat::RawTrd)),
        files::target(image, path_of(base, ext)) matches Ok(f) ==> {
            &&& f == Some(DiskImageFormat::RawTrd)
            &&& 1 <= image.spec.num_tracks <= 80
            &&& forall|s: int, t: int, id: u8|
                0 <= s < image.disks.len() && 0 <= t < image.spec.num_tracks && 1 <= id <= 16
                    ==> image.disks[s].tracks.len() == image.spec.num_tracks && image.disks[s].tracks[t].sectors.len() == 16
                    && (#[trigger] image.sector(s, t, id) matches Some(sector) && sector.data.len() == 256)
        },
{
    let path = path_of(base, ext);
    lemma_matches(base, ext);
    let tracks = image.spec.num_tracks;
    if 1 <= tracks <= 80 && plain_image(image, tracks as int, 16, 1, 256) {
        assert forall|s: int, t: int|
            0 <= s < image.disks.len() && 0 <= t < image.disks[s].tracks.len() implies files::raw_track(
            #[trigger] image.disks[s].tracks[t],
            16,
            256,
        ) by {
            reveal_with_fuel(sector_laws::doubled, 2);
            lemma_plain(image.disks[s].tracks[t], 16, 1, 256);
        }
        assert(files::raw_geometry(image, image.spec.num_sides, tracks, 16, 256));
    }
    if files::target(image, path) is Ok {
        assert forall|s: int, t: int, id: u8|
            0 <= s < image.disks.len() && 0 <= t < image.spec.num_tracks && 1 <= id <= 16 implies image.disks[s].tracks.len()
            == image.spec.num_tracks && image.disks[s].tracks[t].sectors.len() == 16 && (#[trigger] image.sector(s, t, id) matches Some(
            sector,
        ) && sector.data.len() == 256) by {
            assert(image.disks[s].tracks.len() == tracks);
            assert(files::raw_track(image.disks[s].tracks[t], 16, 256));
            assert(files::raw_sector(image.disks[s].tracks[t], id, 256));
            crate::image::track::lemma_find(image.disks[s].tracks[t], id, 0);
        }
    }
}

/// A path that ends in `.mgt`, in whatever case, takes an image with two sides of 80 tracks and
/// on every track the sectors 1 to 10 with 512 bytes each. Nothing else is written to it.
pub proof fn law_mgt_takes_plain_images(image: ImageView, base: Seq<char>, ext: Seq<char>)
    requires
        file_path(base, ext),
        ext.len() == 3 && letter(ext[0], 'm', 'M') && letter(ext[1], 'g', 'G') && letter(ext[2], 't', 'T'),
    ensures
        image.disks.len() == 2 && plain_image(image, 80, 10, 2, 512) ==> files::target(image, path_of(base, ext)) == Ok::<
            Option<DiskImageFormat>,
            ErrorView,
        >(Some(DiskImageFormat::RawMgt)),
        files::target(image, path_of(base, ext)) matches Ok(f) ==> {
            &&& f == Some(DiskImageFormat::RawMgt)
            &&& image.disks.len() == 2
            &&& forall|s: int, t: int, id: u8|
                0 <= s < 2 && 0 <= t < 80 && 1 <= id <= 10 ==> image.disks[s].tracks.len() == 80
                    && image.disks[s].tracks[t].sectors.len() == 10 && (#[trigger] image.sector(s, t, id) matches Some(sector)
                    && sector.data.len() == 512)
        },
{
    let path = path_of(base, ext);
    lemma_matches(base, ext);
    if image.disks.len() == 2 && plain_image(image, 80, 10, 2, 512) {
        assert forall|s: int, t: int|
            0 <= s < image.disks.len() && 0 <= t < image.disks[s].tracks.len() implies files::raw_track(
            #[trigger] image.disks[s].tracks[t],
            10,
            512,
        ) by {
            reveal_with_fuel(sector_laws::doubled, 3);
            lemma_plain(image.disks[s].tracks[t], 10, 2, 512);
        }
        assert(files::raw_geometry(image, 2, 80, 10, 512));
    }
    if files::target(image, path) is Ok {
        assert forall|s: int, t: int, id: u8|
            0 <= s < 2 && 0 <= t < 80 && 1 <= id <= 10 implies image.disks[s].tracks.len() == 80 && image.disks[s].tracks[t].sectors.len()
            == 10 && (#[trigger] image.sector(s, t, id) matches Some(sector) && sector.data.len() == 512) by {
            assert(image.disks[s].tracks.len() == 80);
            assert(files::raw_track(image.disks[s].tracks[t], 10, 512));
            assert(files::raw_sector(image.disks[s].tracks[t], id, 512));
            crate::image::track::lemma_find(image.disks[s].tracks[t], id, 0);
        }
    }
}

/// A path that ends in `.td0` takes any image with one or two sides, as a TeleDisk image.
pub proof fn law_td0_takes_one_or_two_sides(image: ImageView, base: Seq<char>, ext: Seq<char>)
    requires
        file_path(base, ext),
        ext.len() == 3 && letter(ext[0], 't', 'T') && letter(ext[1], 'd', 'D') && ext[2] == '0',
    ensures
        image.disks.len() == 1 || image.disks.len() == 2 ==> files::target(image, path_of(base, ext)) == Ok::<
            Option<DiskImageFormat>,
            ErrorView,
        >(Some(DiskImageFormat::RawTd0)),
        image.disks.len() == 0 || image.disks.len() > 2 ==> files::target(image, path_of(base, ext)) is Err,
{
    lemma_matches(base, ext);
}

/// A path that ends in `.dsk` takes any image: one in the standard format stays in it, any other
/// is written in the extended format.
pub proof fn law_dsk_takes_any_image(image: ImageView, base: Seq<char>, ext: Seq<char>)
    requires
        file_path(base, ext),
        ext.len() == 3 && letter(ext[0], 'd', 'D') && letter(ext[1], 's', 'S') && letter(ext[2], 'k', 'K'),
    ensures
        image.format == DiskImageFormat::StandardDSK ==> files::target(image, path_of(base, ext)) == Ok::<
            Option<DiskImageFormat>,
            ErrorView,
        >(Some(DiskImageFormat::StandardDSK)),
        image.format != DiskImageFormat::StandardDSK ==> files::target(image, path_of(base, ext)) == Ok::<
            Option<DiskImageFormat>,
            ErrorView,
        >(Some(DiskImageFormat::ExtendedDSK)),
{
    lemma_matches(base, ext);
}

/// A path that ends in `.json` takes any image, not in a sector format.
pub proof fn law_json_takes_any_image(image: ImageView, base: Seq<char>, ext: Seq<char>)
    requires
        file_path(base, ext),
        ext.len() == 4 && letter(ext[0], 'j', 'J') && letter(ext[1], 's', 'S') && letter(ext[2], 'o', 'O') && letter(
            ext[3],
            'n',
            'N',
        ),
    ensures
        files::target(image, path_of(base, ext)) == Ok::<Option<DiskImageFormat>, ErrorView>(None),
{
    lemma_matches(base, ext);
}

/// Under any other extension an image is written in the format that it has.
pub proof fn law_other_extensions_keep_the_format(image: ImageView, base: Seq<char>, ext: Seq<char>)
    requires
        file_path(base, ext),
        !(ext.len() == 3 && letter(ext[0], 't', 'T') && letter(ext[1], 'r', 'R') && letter(ext[2], 'd', 'D')),
        !(ext.len() == 3 && letter(ext[0], 'm', 'M') && letter(ext[1], 'g', 'G') && letter(ext[2], 't', 'T')),
        !(ext.len() == 3 && letter(ext[0], 't', 'T') && letter(ext[1], 'd', 'D') && ext[2] == '0'),
        !(ext.len() == 3 && letter(ext[0], 'd', 'D') && letter(ext[1], 's', 'S') && letter(ext[2], 'k', 'K')),
        !(ext.len() == 4 && letter(ext[0], 'j', 'J') && letter(ext[1], 's', 'S') && letter(ext[2], 'o', 'O') && letter(
            ext[3],
            'n',
            'N',
        )),
    ensures
        files::target(image, path_of(base, ext)) == Ok::<Option<DiskImageFormat>, ErrorView>(Some(image.format)),
{
    lemma_matches(base, ext);
}

/// A file is opened as what its extension says, whatever the case of the letters, and as a DSK
/// file if it says nothing.
pub proof fn law_extension_decides_the_kind(base: Seq<char>, ext: Seq<char>)
    requires
        file_path(base, ext),
    ensures
        paths::kind_of(path_of(base, ext)) == FileKind::Td0 <==> ext.len() == 3 && letter(ext[0], 't', 'T') && letter(
            ext[1],
            'd',
            'D',
        ) && ext[2] == '0',
        paths::kind_of(path_of(base, ext)) == FileKind::Trd <==> ext.len() == 3 && letter(ext[0], 't', 'T') && letter(
            ext[1],
            'r',
            'R',
        ) && letter(ext[2], 'd', 'D'),
        paths::kind_of(path_of(base, ext)) == FileKind::Mgt <==> ext.len() == 3 && letter(ext[0], 'm', 'M') && letter(
            ext[1],
            'g',
            'G',
        ) && letter(ext[2], 't', 'T'),
        paths::kind_of(path_of(base, ext)) == FileKind::Json <==> ext.len() == 4 && letter(ext[0], 'j', 'J') && letter(
            ext[1],
            's',
            'S',
        ) && letter(ext[2], 'o', 'O') && letter(ext[3], 'n', 'N'),
{
    lemma_matches(base, ext);
}

/// A path without directories is a file name, and so is what stands behind the last slash.
pub proof fn law_file_name_stands_behind_the_slash(directory: Seq<char>, base: Seq<char>, ext: Seq<char>)
    requires
        file_path(base, ext),
        forall|i: int| 0 <= i < base.len() ==> #[trigger] base[i] != '/',
    ensures
        paths::file_name(path_of(base, ext)) == Some(path_of(base, ext)),
        paths::file_name(directory + seq!['/'] + path_of(base, ext)) == Some(path_of(base, ext)),
{
    let name = path_of(base, ext);
    let long = directory + seq!['/'] + name;
    let slash = directory.len() as int;
    assert(name.last() == ext[ext.len() - 1]);
    assert(long.last() == ext[ext.len() - 1]);
    assert(paths::without_tail(name) == name && paths::without_tail(long) == long);
    assert forall|k: int| 0 <= k < name.len() implies #[trigger] name[k] != '/' by {
        if k > base.len() {
            assert(name[k] == ext[k - base.len() - 1]);
        }
    }
    assert forall|k: int| slash < k < long.len() implies #[trigger] long[k] != '/' by {
        assert(long[k] == name[k - slash - 1]);
    }
    lemma_rfind_found(name, '/');
    lemma_rfind(long, '/', slash);
    assert(long.skip(slash + 1) =~= name);
    assert(name != seq!['.'] && name != seq!['.', '.']) by {
        assert(seq!['.'].last() == '.' && seq!['.', '.'].last() == '.');
    }
}

/// An image is a plain sequence of sectors if it has the given number of sides and plain tracks
/// throughout; and if it is one, every track has just as many sectors, with the ID numbers from 1 on
/// and of the given size.
pub proof fn law_raw_geometry(image: ImageView, sides: u8, tracks: u8, sectors: u8, code: u8, size: int)
    requires
        code <= 7,
        size == sector_laws::doubled(code as int),
    ensures
        image.disks.len() == sides && plain_image(image, tracks as int, sectors as int, code, size) ==> files::raw_geometry(
            image,
            sides,
            tracks,
            sectors,
            size,
        ),
        files::raw_geometry(image, sides, tracks, sectors, size) ==> {
            &&& image.disks.len() == sides && image.spec.num_sides == sides && image.spec.num_tracks == tracks
            &&& forall|s: int, t: int, id: u8|
                0 <= s < sides && 0 <= t < tracks && 1 <= id <= sectors ==> image.disks[s].tracks.len() == tracks
                    && image.disks[s].tracks[t].sectors.len() == sectors && (#[trigger] image.sector(s, t, id) matches Some(sector)
                    && sector.data.len() == size && sector.id.size_code % 8 == code)
        },
{
    reveal_with_fuel(sector_laws::doubled, 9);
    if image.disks.len() == sides && plain_image(image, tracks as int, sectors as int, code, size) {
        assert forall|s: int, t: int|
            0 <= s < image.disks.len() && 0 <= t < image.disks[s].tracks.len() implies files::raw_track(
            #[trigger] image.disks[s].tracks[t],
            sectors,
            size,
        ) by {
            assert(image.disks[s].tracks.len() == tracks);
            lemma_plain(image.disks[s].tracks[t], sectors, code, size);
        }
    }
    if files::raw_geometry(image, sides, tracks, sectors, size) {
        assert forall|s: int, t: int, id: u8|
            0 <= s < sides && 0 <= t < tracks && 1 <= id <= sectors implies image.disks[s].tracks.len() == tracks
            && image.disks[s].tracks[t].sectors.len() == sectors && (#[trigger] image.sector(s, t, id) matches Some(sector)
            && sector.data.len() == size && sector.id.size_code % 8 == code) by {
            assert(image.disks[s].tracks.len() == tracks);
            assert(files::raw_track(image.disks[s].tracks[t], sectors, size));
            assert(files::raw_sector(image.disks[s].tracks[t], id, size));
            crate::image::track::lemma_find(image.disks[s].tracks[t], id, 0);
        }
    }
}

}
