# dskmanager

Sector images of floppy disks, and the files on them. The library is written in
Verus: what its functions return and change is stated in their contracts and
proved.

- `src/image`: images, their sides, tracks and sectors; building, reading,
  writing and logical order; which format an image is saved in.
- `src/io`: the TeleDisk reader with its LZW, LZHUF and run-length decoders.
- `src/specification.rs`: where a CP/M filesystem lies on a disk.
- `src/filesystem`: CP/M, MGT and TR-DOS. `cpm_model.rs`, `mgt.rs` and
  `trdos.rs` say what is on a disk; `*_edit.rs` store and remove files;
  `formatting.rs` sets up empty filesystems.
- `*laws.rs`: what holds across operations, such as that a stored file is read
  back byte for byte, that other files keep their content, and that removed
  files leave their space to others.
- `app`: image files on a host filesystem.
