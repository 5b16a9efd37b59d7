//! Recognising a file's kind from its leading bytes.
use vstd::prelude::*;
use crate::le::u32_at;

verus! {

/// The container and asset kinds that the unpacker recognises.
#[derive(Clone, Copy, PartialEq, Eq, Debug, Structural)]
pub enum FileType {
    P2,
    LZ,
    HPAK,
    PK2D,
    PKAC,
    OtherOrNotGuessable,
    NSBCA,
    NSBVA,
    NSBMA,
    NSBTP,
    NSBTA,
    NSBTX,
    Unknown5,
    Unknown6,
    NSBMD,
    NCLR,
    NCGR,
    Unknown0,
    Unknown1,
    Unknown2,
    Unknown3,
    NCER,
    Unknown4,
    NANR,
    NSCR,
    NFTR,
    Unknown7,
    SDAT,
}

/// The two leading bytes of a segmented archive, as a little-endian word.
pub const P2_MAGIC: u16 = 0x3250;

/// The leading word of an HPAK file ("HPAK").
pub const HPAK_MAGIC: u32 = 0x4B415048;

/// The leading word of a PK2D file ("PK2D").
pub const PK2D_MAGIC: u32 = 0x44324B50;

/// The leading word of a PKAC file ("PKAC").
pub const PKAC_MAGIC: u32 = 0x43414B50;

/// The leading word of an NSBMD file ("BMD0").
pub const NSBMD_MAGIC: u32 = 0x30444D42;

/// The leading word of an NSBTX file ("BTX0").
pub const NSBTX_MAGIC: u32 = 0x30585442;

/// The leading word of an NSBCA file ("BCA0").
pub const NSBCA_MAGIC: u32 = 0x30414342;

/// The leading word of an NSBTP file ("BTP0").
pub const NSBTP_MAGIC: u32 = 0x30505442;

/// The leading word of an NSBTA file ("BTA0").
pub const NSBTA_MAGIC: u32 = 0x30415442;

/// The leading word of an NSBMA file ("BMA0").
pub const NSBMA_MAGIC: u32 = 0x30414D42;

/// The leading word of an NSBVA file ("BVA0").
pub const NSBVA_MAGIC: u32 = 0x30415642;

/// The leading word of an NCGR file ("RGCN").
pub const NCGR_MAGIC: u32 = 0x4E434752;

/// The leading word of an NCLR file ("RLCN").
pub const NCLR_MAGIC: u32 = 0x4E434C52;

/// The leading word of an NSCR file ("RCSN").
pub const NSCR_MAGIC: u32 = 0x4E534352;

/// The leading word of an NFTR file ("RTFN").
pub const NFTR_MAGIC: u32 = 0x4E465452;

/// The leading word of an NCER file ("RECN").
pub const NCER_MAGIC: u32 = 0x4E434552;

/// The leading word of an NANR file ("RNAN").
pub const NANR_MAGIC: u32 = 0x4E414E52;

/// The leading word of an SDAT file ("SDAT").
pub const SDAT_MAGIC: u32 = 0x54414453;

/// The kind named by a four-byte magic word, if any.
pub open spec fn kind_of_magic(m: int) -> Option<FileType> {
    if m == HPAK_MAGIC {
        Some(FileType::HPAK)
    } else if m == PK2D_MAGIC {
        Some(FileType::PK2D)
    } else if m == PKAC_MAGIC {
        Some(FileType::PKAC)
    } else if m == NSBMD_MAGIC {
        Some(FileType::NSBMD)
    } else if m == NSBTX_MAGIC {
        Some(FileType::NSBTX)
    } else if m == NSBCA_MAGIC {
        Some(FileType::NSBCA)
    } else if m == NSBTP_MAGIC {
        Some(FileType::NSBTP)
    } else if m == NSBTA_MAGIC {
        Some(FileType::NSBTA)
    } else if m == NSBMA_MAGIC {
        Some(FileType::NSBMA)
    } else if m == NSBVA_MAGIC {
        Some(FileType::NSBVA)
    } else if m == NCGR_MAGIC {
        Some(FileType::NCGR)
    } else if m == NCLR_MAGIC {
        Some(FileType::NCLR)
    } else if m == NSCR_MAGIC {
        Some(FileType::NSCR)
    } else if m == NFTR_MAGIC {
        Some(FileType::NFTR)
    } else if m == NCER_MAGIC {
        Some(FileType::NCER)
    } else if m == NANR_MAGIC {
        Some(FileType::NANR)
    } else if m == SDAT_MAGIC {
        Some(FileType::SDAT)
    } else {
        None
    }
}

/// The kind of a buffer, from its leading bytes alone.
pub open spec fn classify(s: Seq<u8>, could_be_compressed: bool) -> FileType {
    if s.len() < 4 {
        FileType::OtherOrNotGuessable
    } else {
        match kind_of_magic(u32_at(s, 0)) {
            Some(t) => t,
            None => if u32_at(s, 0) % 65536 == P2_MAGIC {
                FileType::P2
            } else if (s[0] == 0x10 || s[0] == 0x11) && could_be_compressed {
                FileType::LZ
            } else {
                FileType::OtherOrNotGuessable
            },
        }
    }
}

/// The file-name extension of each kind.
pub open spec fn extension_of(t: FileType) -> Seq<char> {
    match t {
        FileType::P2 => seq!['p', '2'],
        FileType::LZ => seq!['l', 'z'],
        FileType::HPAK => seq!['h', 'p', 'a', 'k'],
        FileType::PK2D => seq!['p', 'k', '2', 'd'],
        FileType::PKAC => seq!['p', 'k', 'a', 'c'],
        FileType::OtherOrNotGuessable => seq!['b', 'i', 'n'],
        FileType::NSBCA => seq!['n', 's', 'b', 'c', 'a'],
        FileType::NSBVA => seq!['n', 's', 'b', 'v', 'a'],
        FileType::NSBMA => seq!['n', 's', 'b', 'm', 'a'],
        FileType::NSBTP => seq!['n', 's', 'b', 't', 'p'],
        FileType::NSBTA => seq!['n', 's', 'b', 't', 'a'],
        FileType::NSBTX => seq!['n', 's', 'b', 't', 'x'],
        FileType::Unknown5 => seq!['5', '.', 'b', 'i', 'n'],
        FileType::Unknown6 => seq!['6', '.', 'b', 'i', 'n'],
        FileType::NSBMD => seq!['n', 's', 'b', 'm', 'd'],
        FileType::NCLR => seq!['n', 'c', 'l', 'r'],
        FileType::NCGR => seq!['n', 'c', 'g', 'r'],
        FileType::Unknown0 => seq!['0', '.', 'b', 'i', 'n'],
        FileType::Unknown1 => seq!['1', '.', 'b', 'i', 'n'],
        FileType::Unknown2 => seq!['2', '.', 'b', 'i', 'n'],
        FileType::Unknown3 => seq!['3', '.', 'b', 'i', 'n'],
        FileType::NCER => seq!['n', 'c', 'e', 'r'],
        FileType::Unknown4 => seq!['4', '.', 'b', 'i', 'n'],
        FileType::NANR => seq!['n', 'a', 'n', 'r'],
        FileType::NSCR => seq!['n', 's', 'c', 'r'],
        FileType::NFTR => seq!['n', 'f', 't', 'r'],
        FileType::Unknown7 => seq!['7', '.', 'b', 'i', 'n'],
        FileType::SDAT => seq!['s', 'd', 'a', 't'],
    }
}

/// Whether a file of this kind is a container to unpack further.
pub open spec fn is_still_packed(t: FileType) -> bool {
    match t {
        FileType::P2 | FileType::LZ | FileType::HPAK | FileType::PK2D | FileType::PKAC => true,
        _ => false,
    }
}

impl FileType {
    /// Classifies `buf` by its magic number. A leading byte of 0x10 or 0x11
    /// marks an LZ stream only when `could_be_compressed` is set.
    pub fn guess_from(buf: &[u8], could_be_compressed: bool) -> (r: FileType)
        ensures
            r == classify(buf@, could_be_compressed),
    {
        if buf.len() < 4 {
            return FileType::OtherOrNotGuessable;
        }
        let magic = crate::le::read_u32(buf, 0);
        if magic == HPAK_MAGIC {
            FileType::HPAK
        } else if magic == PK2D_MAGIC {
            FileType::PK2D
        } else if magic == PKAC_MAGIC {
            FileType::PKAC
        } else if magic == NSBMD_MAGIC {
            FileType::NSBMD
        } else if magic == NSBTX_MAGIC {
            FileType::NSBTX
        } else if magic == NSBCA_MAGIC {
            FileType::NSBCA
        } else if magic == NSBTP_MAGIC {
            FileType::NSBTP
        } else if magic == NSBTA_MAGIC {
            FileType::NSBTA
        } else if magic == NSBMA_MAGIC {
            FileType::NSBMA
        } else if magic == NSBVA_MAGIC {
            FileType::NSBVA
        } else if magic == NCGR_MAGIC {
            FileType::NCGR
        } else if magic == NCLR_MAGIC {
            FileType::NCLR
        } else if magic == NSCR_MAGIC {
            FileType::NSCR
        } else if magic == NFTR_MAGIC {
            FileType::NFTR
        } else if magic == NCER_MAGIC {
            FileType::NCER
        } else if magic == NANR_MAGIC {
            FileType::NANR
        } else if magic == SDAT_MAGIC {
            FileType::SDAT
        } else if magic % 65536 == P2_MAGIC as u32 {
            FileType::P2
        } else if (buf[0] == 0x10 || buf[0] == 0x11) && could_be_compressed {
            FileType::LZ
        } else {
            FileType::OtherOrNotGuessable
        }
    }

    /// The extension given to unpacked files of this kind.
    pub fn get_extension(&self) -> (r: &'static str)
        ensures
            r@ == extension_of(*self),
    {
        match self {
            FileType::P2 => {
                proof {
                    reveal_strlit("p2");
                }
                "p2"
            },
            FileType::LZ => {
                proof {
                    reveal_strlit("lz");
                }
                "lz"
            },
            FileType::HPAK => {
                proof {
                    reveal_strlit("hpak");
                }
                "hpak"
            },
            FileType::PK2D => {
                proof {
                    reveal_strlit("pk2d");
                }
                "pk2d"
            },
            FileType::PKAC => {
                proof {
                    reveal_strlit("pkac");
                }
                "pkac"
            },
            FileType::OtherOrNotGuessable => {
                proof {
                    reveal_strlit("bin");
                }
                "bin"
            },
            FileType::NSBCA => {
                proof {
                    reveal_strlit("nsbca");
                }
                "nsbca"
            },
            FileType::NSBVA => {
                proof {
                    reveal_strlit("nsbva");
                }
                "nsbva"
            },
            FileType::NSBMA => {
                proof {
                    reveal_strlit("nsbma");
                }
                "nsbma"
            },
            FileType::NSBTP => {
                proof {
                    reveal_strlit("nsbtp");
                }
                "nsbtp"
            },
            FileType::NSBTA => {
                proof {
                    reveal_strlit("nsbta");
                }
                "nsbta"
            },
            FileType::NSBTX => {
                proof {
                    reveal_strlit("nsbtx");
                }
                "nsbtx"
            },
            FileType::Unknown5 => {
                proof {
                    reveal_strlit("5.bin");
                }
                "5.bin"
            },
            FileType::Unknown6 => {
                proof {
                    reveal_strlit("6.bin");
                }
                "6.bin"
            },
            FileType::NSBMD => {
                proof {
                    reveal_strlit("nsbmd");
                }
                "nsbmd"
            },
            FileType::NCLR => {
                proof {
                    reveal_strlit("nclr");
                }
                "nclr"
            },
            FileType::NCGR => {
                proof {
                    reveal_strlit("ncgr");
                }
                "ncgr"
            },
            FileType::Unknown0 => {
                proof {
                    reveal_strlit("0.bin");
                }
                "0.bin"
            },
            FileType::Unknown1 => {
                proof {
                    reveal_strlit("1.bin");
                }
                "1.bin"
            },
            FileType::Unknown2 => {
                proof {
                    reveal_strlit("2.bin");
                }
                "2.bin"
            },
            FileType::Unknown3 => {
                proof {
                    reveal_strlit("3.bin");
                }
                "3.bin"
            },
            FileType::NCER => {
                proof {
                    reveal_strlit("ncer");
                }
                "ncer"
            },
            FileType::Unknown4 => {
                proof {
                    reveal_strlit("4.bin");
                }
                "4.bin"
            },
            FileType::NANR => {
                proof {
                    reveal_strlit("nanr");
                }
                "nanr"
            },
            FileType::NSCR => {
                proof {
                    reveal_strlit("nscr");
                }
                "nscr"
            },
            FileType::NFTR => {
                proof {
                    reveal_strlit("nftr");
                }
                "nftr"
            },
            FileType::Unknown7 => {
                proof {
                    reveal_strlit("7.bin");
                }
                "7.bin"
            },
            FileType::SDAT => {
                proof {
                    reveal_strlit("sdat");
                }
                "sdat"
            },
        }
    }

    /// Whether files of this kind must be unpacked further.
    pub fn still_packed(&self) -> (r: bool)
        ensures
            r == is_still_packed(*self),
    {
        match self {
            FileType::P2 | FileType::LZ | FileType::HPAK | FileType::PK2D | FileType::PKAC => true,
            _ => false,
        }
    }
}

/// Classification reads the first four bytes and nothing after them: two
/// buffers that agree there get the same kind.
pub proof fn lemma_classify_reads_prefix(a: Seq<u8>, b: Seq<u8>, hint: bool)
    requires
        a.len() >= 4,
        b.len() >= 4,
        a.subrange(0, 4) == b.subrange(0, 4),
    ensures
        classify(a, hint) == classify(b, hint),
{
    assert(a[0] == a.subrange(0, 4)[0]);
    assert(a[1] == a.subrange(0, 4)[1]);
    assert(a[2] == a.subrange(0, 4)[2]);
    assert(a[3] == a.subrange(0, 4)[3]);
    assert(b[0] == b.subrange(0, 4)[0]);
    assert(b[1] == b.subrange(0, 4)[1]);
    assert(b[2] == b.subrange(0, 4)[2]);
    assert(b[3] == b.subrange(0, 4)[3]);
}

} // verus!
