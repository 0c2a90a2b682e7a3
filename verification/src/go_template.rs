//! The Go source of the harness program, up to the import path and the statements of the
//! call.

use vstd::prelude::*;
use vstd::string::*;

verus! {

/// The harness up to the import path of the package under test.
pub const HARNESS_HEAD: &'static str = r#"// SPDX-License-Identifier: Apache-2.0
// Generated by bhf (native Go lane). Decodes fuzz bytes into typed args and
// calls the target; a recovered panic is a finding. Do not edit. BHF_FRAMED
package main

import (
	"bytes"
	"context"
	"encoding/json"
	"fmt"
	"io"
	"math"
	"os"
	"runtime/coverage"
	"runtime/debug"
	"strings"
	"syscall"

	tgt ""#;

/// The harness from behind the import path to the statements of the call.
pub const HARNESS_MIDDLE: &'static str = r#""
)

// --- bhf real edge coverage (Go -cover atomic counters -> shared edge map) ---
// The builtin engine reads BHF_COV_SHM as a cumulative 64KB AFL edge bitmap.
// Per input we clear Go's coverage counters, run the target, then fold the SET of
// executed blocks (counter != 0 — the count VALUE is ignored, so a loop's trip
// count is never false novelty) into the map. Parsing Go's internal covcounters
// format is version-guarded: any mismatch folds nothing (black-box fallback), so a
// future format change degrades gracefully rather than emitting a wrong signal.
const bhfCovBits = 1 << 16

var bhfCovMap []byte
var bhfCovBuf bytes.Buffer

func bhfCovInit() {
	path := os.Getenv("BHF_COV_SHM")
	if path == "" {
		return
	}
	fd, err := syscall.Open(path, syscall.O_RDWR|syscall.O_CREAT, 0o600)
	if err != nil {
		return
	}
	_ = syscall.Ftruncate(fd, bhfCovBits)
	m, err := syscall.Mmap(fd, 0, bhfCovBits, syscall.PROT_READ|syscall.PROT_WRITE, syscall.MAP_SHARED)
	_ = syscall.Close(fd)
	if err == nil {
		bhfCovMap = m
	}
	_ = coverage.ClearCounters()
}

func bhfCovClear() {
	if bhfCovMap != nil {
		_ = coverage.ClearCounters()
	}
}

func bhfCovRecord() {
	if bhfCovMap == nil {
		return
	}
	bhfCovBuf.Reset()
	if coverage.WriteCounters(&bhfCovBuf) != nil {
		_ = coverage.ClearCounters()
		return
	}
	b := bhfCovBuf.Bytes()
	_ = coverage.ClearCounters()
	if len(b) < 32 || b[1] != 'c' || b[2] != 'w' || b[3] != 'm' {
		return
	}
	flavor := b[24]
	p := 32 // magic[4] version[4] metaHash[16] flavor[1] bigEndian[1] pad[6]
	le := func(n int) uint64 {
		var v uint64
		for i := 0; i < n; i++ {
			v |= uint64(b[p+i]) << (8 * uint(i))
		}
		p += n
		return v
	}
	uleb := func() (uint64, bool) {
		var v uint64
		var s uint
		for {
			if p >= len(b) {
				return 0, false
			}
			c := b[p]
			p++
			v |= uint64(c&0x7f) << s
			if c&0x80 == 0 {
				break
			}
			s += 7
		}
		return v, true
	}
	rd := func() (uint64, bool) {
		if flavor == 1 { // CtrRaw: fixed uint32
			if p+4 > len(b) {
				return 0, false
			}
			return le(4), true
		}
		return uleb() // CtrULeb128
	}
	if p+16 > len(b) {
		return
	}
	fcn := le(8)
	strtab := le(4)
	args := le(4)
	p += int(strtab) + int(args)
	if p > len(b) {
		return
	}
	for f := uint64(0); f < fcn; f++ {
		nc, ok := rd()
		if !ok {
			return
		}
		pkg, ok2 := rd()
		if !ok2 {
			return
		}
		fnc, ok3 := rd()
		if !ok3 {
			return
		}
		for c := uint64(0); c < nc; c++ {
			v, ok4 := rd()
			if !ok4 {
				return
			}
			if v != 0 {
				idx := ((uint32(pkg) * 2654435761) ^ (uint32(fnc) * 40503) ^ uint32(c)) & (bhfCovBits - 1)
				if bhfCovMap[idx] != 0xff {
					bhfCovMap[idx]++
				}
			}
		}
	}
}

type cur struct {
	d []byte
	p int
}

func (c *cur) rest() []byte { r := c.d[c.p:]; c.p = len(c.d); return r }
func (c *cur) u8() byte {
	if c.p < len(c.d) {
		v := c.d[c.p]
		c.p++
		return v
	}
	return 0
}
func (c *cur) i64() int64 {
	var v uint64
	for i := 0; i < 8 && c.p < len(c.d); i++ {
		v |= uint64(c.d[c.p]) << (8 * uint(i))
		c.p++
	}
	return int64(v)
}

// bytesField reads a 1-byte length then that many bytes (bounded by what remains),
// so multiple []byte/string params each get a chunk.
func (c *cur) bytesField() []byte {
	n := int(c.u8())
	if rem := len(c.d) - c.p; n > rem {
		n = rem
	}
	r := c.d[c.p : c.p+n]
	c.p += n
	return r
}

// args maps one byte stream to a command/state-machine argument vector. NUL is
// not accepted inside command-line arguments, so it is a lossless field boundary.
func (c *cur) args() []string { return strings.Split(string(c.rest()), "\x00") }

// f64 decodes a float (and keeps the math import referenced even when no float
// param is decoded by a given target).
func (c *cur) f64() float64 { return math.Float64frombits(uint64(c.i64())) }

// ctx supplies the canonical non-nil, non-cancelled context every real caller
// passes. A `context.Context` parameter carries no fuzz input — it is call
// context — and refusing it made the whole target undrivable. It must NOT be
// nil: a nil context panics the moment the callee touches Done()/Err(), and that
// panic would be bhf's fault, not a finding. This also keeps the context
// import referenced when no target decodes one.
func (c *cur) ctx() context.Context { return context.Background() }

// reader keeps the io import referenced even when no io.Reader param is decoded.
var _ = io.EOF
var _ = json.Unmarshal

var bhfTargetEntered bool

func bhfMarkTargetEntry() {
	if bhfTargetEntered {
		return
	}
	path := os.Getenv("BHF_TARGET_ENTRY_SHM")
	if path == "" {
		return
	}
	if os.WriteFile(path, []byte{1}, 0o600) == nil {
		bhfTargetEntered = true
	}
}

func runOne(data []byte) {
	defer func() {
		if r := recover(); r != nil {
			os.Stderr.WriteString("== bhf go finding: " + fmt.Sprint(r) + "\n")
			os.Stderr.Write(debug.Stack()) // stack frames so findings cluster by site
			_ = os.Stderr.Sync()
			os.Exit(86)
		}
	}()
	c := &cur{d: data}
	_ = c // JSON-only data arguments do not consume the byte cursor.
	_ = bytes.MinRead
"#;

/// The harness from behind the statements of the call to its end.
pub const HARNESS_TAIL: &'static str = r#"}

func readU32(f *os.File) (int, bool) {
	hdr := make([]byte, 4)
	if _, err := io.ReadFull(f, hdr); err != nil {
		return 0, false
	}
	return int(hdr[0]) | int(hdr[1])<<8 | int(hdr[2])<<16 | int(hdr[3])<<24, true
}

func main() {
	// Save the control pipe (fd 1), then redirect fd 1 + os.Stdout to /dev/null so
	// the target's prints can't corrupt the sync stream (#427).
	ctlFd, _ := syscall.Dup(1)
	control := os.NewFile(uintptr(ctlFd), "ctl")
	if dn, err := os.OpenFile(os.DevNull, os.O_WRONLY, 0); err == nil {
		_ = syscall.Dup2(int(dn.Fd()), 1)
		os.Stdout = dn
	}
	in := os.NewFile(0, "in")
	if os.Getenv("BHF_FRAMED") != "" {
		bhfCovInit()
		_, _ = control.Write([]byte{1}) // ready
		for {
			n, ok := readU32(in)
			if !ok {
				break
			}
			buf := make([]byte, n)
			if _, err := io.ReadFull(in, buf); err != nil && n > 0 {
				break
			}
			bhfCovClear()
			runOne(buf)
			bhfCovRecord()
			_, _ = control.Write([]byte{1}) // sync
		}
		return
	}
	// Per-spawn replay: argv[1] file else stdin.
	var data []byte
	if len(os.Args) > 1 {
		if b, err := os.ReadFile(os.Args[1]); err == nil {
			data = b
		}
	} else {
		data, _ = io.ReadAll(in)
	}
	runOne(data)
}
"#;

/// The harness that imports the package `import_path` and runs the statements `body` on
/// each input.
pub fn generate_main_go(import_path: &str, body: &str) -> (r: String)
    ensures
        r@ == HARNESS_HEAD@ + import_path@ + HARNESS_MIDDLE@ + body@ + HARNESS_TAIL@,
{
    let mut out = HARNESS_HEAD.to_owned();
    out.append(import_path);
    out.append(HARNESS_MIDDLE);
    out.append(body);
    out.append(HARNESS_TAIL);
    out
}

} // verus!
