//! Layouts in common use, and the layout that a search starts from where
//! none is asked for. Each is written as the fifty characters of its keys
//! without shift and the fifty with shift, a null for a key without a
//! character.

use vstd::prelude::*;
use crate::layout::Layout;
use crate::layout::layers_of;

verus! {

/// The layout that a search starts from where none is asked for.
pub fn init_layout() -> (layout: Layout)
    ensures
        layout@ == layers_of(
            "\0jcyfkzl,uq=\0rsthdmnaio'\0/vgpbxw.;-\0\0\0\0e\0\0 \0\0\0\0\0\0\0"@,
            "\0JCYFKZL<UQ+\0RSTHDMNAIO\"\0?VGPBXW>:_\0\0\0\0E\0\0 \0\0\0\0\0\0\0"@,
        ),
{
    Layout::from_layers(
        "\0jcyfkzl,uq=\0rsthdmnaio'\0/vgpbxw.;-\0\0\0\0e\0\0 \0\0\0\0\0\0\0",
        "\0JCYFKZL<UQ+\0RSTHDMNAIO\"\0?VGPBXW>:_\0\0\0\0E\0\0 \0\0\0\0\0\0\0",
    )
}

/// The QWERTY layout.
pub fn qwerty_layout() -> (layout: Layout)
    ensures
        layout@ == layers_of(
            "\0qwertyuiop-\0asdfghjkl;'\0zxcvbnm,./\0\0\0\0\0\0\0 \0\0\0\0\0\0\0"@,
            "\0QWERTYUIOP_\0ASDFGHJKL:\"\0ZXCVBNM<>?\0\0\0\0\0\0\0 \0\0\0\0\0\0\0"@,
        ),
{
    Layout::from_layers(
        "\0qwertyuiop-\0asdfghjkl;'\0zxcvbnm,./\0\0\0\0\0\0\0 \0\0\0\0\0\0\0",
        "\0QWERTYUIOP_\0ASDFGHJKL:\"\0ZXCVBNM<>?\0\0\0\0\0\0\0 \0\0\0\0\0\0\0",
    )
}

/// The Dvorak layout.
pub fn dvorak_layout() -> (layout: Layout)
    ensures
        layout@ == layers_of(
            "\0',.pyfgcrl/\0aoeuidhtns-\0;qjkxbmwvz\0\0\0\0\0\0\0 \0\0\0\0\0\0\0"@,
            "\0\",.PYFGCRL?\0AOEUIDHTNS_\0:QJKXBMWVZ\0\0\0\0\0\0\0 \0\0\0\0\0\0\0"@,
        ),
{
    Layout::from_layers(
        "\0',.pyfgcrl/\0aoeuidhtns-\0;qjkxbmwvz\0\0\0\0\0\0\0 \0\0\0\0\0\0\0",
        "\0\",.PYFGCRL?\0AOEUIDHTNS_\0:QJKXBMWVZ\0\0\0\0\0\0\0 \0\0\0\0\0\0\0",
    )
}

/// The Colemak layout.
pub fn colemak_layout() -> (layout: Layout)
    ensures
        layout@ == layers_of(
            "\0qwfpgjluy;-\0arstdhneio'\0zxcvbkm,./\0\0\0\0\0\0\0 \0\0\0\0\0\0\0"@,
            "\0QWFPGJLUY:_\0ARSTDHNEIO\"\0ZXCVBKM<>?\0\0\0\0\0\0\0 \0\0\0\0\0\0\0"@,
        ),
{
    Layout::from_layers(
        "\0qwfpgjluy;-\0arstdhneio'\0zxcvbkm,./\0\0\0\0\0\0\0 \0\0\0\0\0\0\0",
        "\0QWFPGJLUY:_\0ARSTDHNEIO\"\0ZXCVBKM<>?\0\0\0\0\0\0\0 \0\0\0\0\0\0\0",
    )
}

/// The QGMLWY layout.
pub fn qgmlwy_layout() -> (layout: Layout)
    ensures
        layout@ == layers_of(
            "\0qgmlwyfub;-\0dstnriaeoh'\0zxcvjkp,./\0\0\0\0\0\0\0 \0\0\0\0\0\0\0"@,
            "\0QGMLWYFUB:_\0DSTNRIAEOH\"\0ZXCVJKP<>?\0\0\0\0\0\0\0 \0\0\0\0\0\0\0"@,
        ),
{
    Layout::from_layers(
        "\0qgmlwyfub;-\0dstnriaeoh'\0zxcvjkp,./\0\0\0\0\0\0\0 \0\0\0\0\0\0\0",
        "\0QGMLWYFUB:_\0DSTNRIAEOH\"\0ZXCVJKP<>?\0\0\0\0\0\0\0 \0\0\0\0\0\0\0",
    )
}

/// The Workman layout.
pub fn workman_layout() -> (layout: Layout)
    ensures
        layout@ == layers_of(
            "\0qdrwbjfup;-\0ashtgyneoi'\0zxmcvkl,./\0\0\0\0\0\0\0 \0\0\0\0\0\0\0"@,
            "\0QDRWBJFUP:_\0ASHTGYNEOI\"\0ZXMCVKL<>?\0\0\0\0\0\0\0 \0\0\0\0\0\0\0"@,
        ),
{
    Layout::from_layers(
        "\0qdrwbjfup;-\0ashtgyneoi'\0zxmcvkl,./\0\0\0\0\0\0\0 \0\0\0\0\0\0\0",
        "\0QDRWBJFUP:_\0ASHTGYNEOI\"\0ZXMCVKL<>?\0\0\0\0\0\0\0 \0\0\0\0\0\0\0",
    )
}

/// The Maltron layout.
pub fn maltron_layout() -> (layout: Layout)
    ensures
        layout@ == layers_of(
            "\0qpycbvmuzl=\0anisfdthor'\0,.jg/;wk-x\0\0\0\0e\0\0 \0\0\0\0\0\0\0"@,
            "\0QPYCBVMUZL+\0ANISFDTHOR\"\0<>JG?:WK_X\0\0\0\0E\0\0 \0\0\0\0\0\0\0"@,
        ),
{
    Layout::from_layers(
        "\0qpycbvmuzl=\0anisfdthor'\0,.jg/;wk-x\0\0\0\0e\0\0 \0\0\0\0\0\0\0",
        "\0QPYCBVMUZL+\0ANISFDTHOR\"\0<>JG?:WK_X\0\0\0\0E\0\0 \0\0\0\0\0\0\0",
    )
}

/// The MTGAP layout.
pub fn mtgap_layout() -> (layout: Layout)
    ensures
        layout@ == layers_of(
            "\0ypou-bdlckj\0inea,mhtsrv\0(\"'._)fwgx\0\0\0\0z\0\0 \0\0\0\0\0\0\0"@,
            "\0YPOU:BDLCKJ\0INEA;MHTSRV\0&?*=<>FWGX\0\0\0\0Z\0\0 \0\0\0\0\0\0\0"@,
        ),
{
    Layout::from_layers(
        "\0ypou-bdlckj\0inea,mhtsrv\0(\"'._)fwgx\0\0\0\0z\0\0 \0\0\0\0\0\0\0",
        "\0YPOU:BDLCKJ\0INEA;MHTSRV\0&?*=<>FWGX\0\0\0\0Z\0\0 \0\0\0\0\0\0\0",
    )
}

/// The Capewell layout.
pub fn capewell_layout() -> (layout: Layout)
    ensures
        layout@ == layers_of(
            "\0.ywdfjpluq/\0aersgbtnio-\0xzcv;kwh,'\0\0\0\0\0\0\0 \0\0\0\0\0\0\0"@,
            "\0>YWDFJPLUQ?\0AERSGBTNIO_\0XZCV:KWH<\"\0\0\0\0\0\0\0 \0\0\0\0\0\0\0"@,
        ),
{
    Layout::from_layers(
        "\0.ywdfjpluq/\0aersgbtnio-\0xzcv;kwh,'\0\0\0\0\0\0\0 \0\0\0\0\0\0\0",
        "\0>YWDFJPLUQ?\0AERSGBTNIO_\0XZCV:KWH<\"\0\0\0\0\0\0\0 \0\0\0\0\0\0\0",
    )
}

/// The Arensito layout.
pub fn arensito_layout() -> (layout: Layout)
    ensures
        layout@ == layers_of(
            "\0ql,p\0\0fudk\0\0arenbgsito\0\0zw.hjvcymx\0\0\0\0\0\0\0 \0\0\0\0\0\0\0"@,
            "\0QL<P\0\0FUDK\0\0ARENBGSITO\0\0ZW>HJVCYMX\0\0\0\0\0\0\0 \0\0\0\0\0\0\0"@,
        ),
{
    Layout::from_layers(
        "\0ql,p\0\0fudk\0\0arenbgsito\0\0zw.hjvcymx\0\0\0\0\0\0\0 \0\0\0\0\0\0\0",
        "\0QL<P\0\0FUDK\0\0ARENBGSITO\0\0ZW>HJVCYMX\0\0\0\0\0\0\0 \0\0\0\0\0\0\0",
    )
}

} // verus!
